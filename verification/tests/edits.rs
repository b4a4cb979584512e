use tw_lint::edits::{
    apply_splices, apply_text_edits, edits_fit, line_start_offsets, offset_of, splice_text, Splice,
};
use tw_lint::protocol::{Position, Range, TextEdit};

fn edit(l1: u32, c1: u32, l2: u32, c2: u32, text: &str) -> TextEdit {
    TextEdit {
        range: Range::new(Position::new(l1, c1), Position::new(l2, c2)),
        new_text: text.to_string(),
    }
}

fn splice(start: usize, end: usize, text: &str) -> Splice {
    Splice { start, end, text: text.to_string() }
}

#[test]
fn applies_two_edits_on_one_line_without_offset_drift() {
    let source = "let x = tw![\"w-[100%]\", \"h-[100%]\"];\n";
    // w-[100%] spans cols 13..21, h-[100%] spans cols 25..33.
    let edits = vec![edit(0, 13, 0, 21, "w-full"), edit(0, 25, 0, 33, "h-full")];
    let result = apply_text_edits(source, &edits);
    assert_eq!(result, "let x = tw![\"w-full\", \"h-full\"];\n");
}

#[test]
fn edits_in_any_order_on_several_lines() {
    let source = "one\ntwo\nthree";
    let edits = vec![edit(2, 0, 2, 5, "3"), edit(0, 0, 0, 3, "1"), edit(1, 1, 1, 2, "W")];
    assert_eq!(apply_text_edits(source, &edits), "1\ntWo\n3");
    let across = vec![edit(0, 3, 1, 0, " ")];
    assert_eq!(apply_text_edits(source, &across), "one two\nthree");
}

#[test]
fn edits_at_one_place_are_made_in_their_order() {
    let edits = vec![edit(0, 1, 0, 1, "x"), edit(0, 1, 0, 1, "y")];
    assert_eq!(apply_text_edits("ab", &edits), "ayxb");
}

#[test]
fn edits_outside_the_document_do_not_fit() {
    assert!(!edits_fit("ab", &[edit(1, 0, 1, 0, "x")]));
    assert!(!edits_fit("ab", &[edit(0, 1, 0, 9, "x")]));
    assert!(!edits_fit("aé", &[edit(0, 2, 0, 3, "x")]));
    assert!(edits_fit("ab", &[edit(0, 2, 0, 2, "x")]));
    assert!(edits_fit("ab", &[]));
    assert_eq!(apply_text_edits("ab", &[]), "ab");
}

#[test]
fn lines_start_behind_newlines() {
    assert_eq!(line_start_offsets("ab\n\nc\n"), vec![0, 3, 4, 6]);
    assert_eq!(line_start_offsets(""), vec![0]);
    assert_eq!(offset_of(&line_start_offsets("ab\n\nc\n"), 2, 1), 5);
}

#[test]
fn replacements_do_not_shift_each_other() {
    let splices = vec![splice(0, 1, "AAAA"), splice(4, 6, ""), splice(2, 3, "é")];
    assert_eq!(apply_splices("abcdef", &splices).unwrap(), "AAAAbéd");
}

#[test]
fn a_replacement_must_fit() {
    assert!(splice_text("aé", &splice(1, 2, "x")).is_none());
    assert!(splice_text("ab", &splice(2, 1, "x")).is_none());
    assert!(splice_text("ab", &splice(0, 3, "x")).is_none());
    assert_eq!(splice_text("aé", &splice(1, 3, "x")).unwrap(), "ax");
    assert!(apply_splices("ab", &vec![splice(0, 1, "x"), splice(5, 6, "y")]).is_none());
}

#[test]
fn edits_that_are_made_change_nothing() {
    let edits = vec![edit(0, 0, 0, 1, "xy"), edit(1, 1, 1, 2, "z")];
    let once = apply_text_edits("xyb\ncz", &[edit(0, 0, 0, 2, "xy"), edit(1, 1, 1, 2, "z")]);
    assert_eq!(once, "xyb\ncz");
    // A longer text does not stand in its range, so making it twice is not making it once.
    let once = apply_text_edits("ab\ncd", &edits);
    assert_eq!(once, "xyb\ncz");
    assert_eq!(apply_text_edits(&once, &edits), "xyyb\ncz");
}
