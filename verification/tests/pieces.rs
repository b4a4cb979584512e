use tw_lint::blocks::BlockItems;
use tw_lint::conflicts::{order_names, SeenConflicts};
use tw_lint::finding::{classify_by_position, Kind};
use tw_lint::groups::ClassGroup;
use tw_lint::json::Json;
use tw_lint::layout::{
    format_class_list, leading_whitespace, resolve_classes, BlockLayout, ValueEdit,
};
use tw_lint::order::ascending_order;
use tw_lint::palette::Palette;
use tw_lint::paths::{relative, source_pattern, synthetic_path};
use tw_lint::patterns::{canonical_replacement, conflict_pair};
use tw_lint::protocol::{Code, Diagnostic, Position, Range, HINT};
use tw_lint::text::{comes_before, decimal_text, join_texts, split_once_text, split_words, trim_text};

fn group(classes: &[&str]) -> ClassGroup {
    ClassGroup {
        file: "a.rs".into(),
        line: 1,
        list_span: 0..0,
        classes: classes.iter().map(|c| c.to_string()).collect(),
    }
}

fn value_edit(start: usize, end: usize, replacement: &str) -> ValueEdit {
    ValueEdit { start, end, replacement: replacement.into() }
}

#[test]
fn a_path_is_shown_relative_to_its_root() {
    assert_eq!(relative("/p/src/a.rs", "/p"), "src/a.rs");
    assert_eq!(relative("/q/a.rs", "/p"), "/q/a.rs");
    assert_eq!(relative("/p", "/p"), "");
    assert_eq!(relative("/pa/b", "/p"), "/pa/b");
    assert_eq!(relative("/my dir/a.rs", "/my"), "/my dir/a.rs");
}

#[test]
fn a_glob_is_taken_from_the_root_on() {
    assert_eq!(source_pattern("/p", "src/**/*.rs"), "/p/src/**/*.rs");
    assert_eq!(source_pattern("/p", "/abs/*.rs"), "/abs/*.rs");
    assert_eq!(source_pattern("p", "*.rs"), "p/*.rs");
    assert_eq!(source_pattern("p/", "*.rs"), "p/*.rs");
    assert_eq!(synthetic_path("/p"), "/p/__twlint_synthetic.html");
    assert_eq!(synthetic_path("p"), "p/__twlint_synthetic.html");
}

#[test]
fn a_replacement_is_read_from_the_message() {
    assert_eq!(
        canonical_replacement("The class `w-[100%]` can be written as `w-full`"),
        Some("w-full".to_string())
    );
    assert_eq!(
        canonical_replacement("can be written as `a` or `b`"),
        Some("a` or `b".to_string())
    );
    assert_eq!(canonical_replacement("can be written as ``"), None);
}

#[test]
fn the_names_of_a_conflict_are_read_from_the_message() {
    assert_eq!(
        conflict_pair("'flex' applies the same CSS properties as 'block' and 'grid'."),
        Some(("flex".to_string(), "block".to_string()))
    );
    assert_eq!(conflict_pair("'flex' alone"), None);
    assert_eq!(conflict_pair("it's '' or 'x'"), Some(("s ".to_string(), " or ".to_string())));
}

#[test]
fn findings_come_by_position() {
    let mut list = Vec::new();
    for (line, column, name) in [(1, 0, "c"), (0, 9, "b"), (1, 0, "d"), (0, 2, "a")] {
        list.push(Diagnostic {
            range: Range::new(Position::new(line, column), Position::new(line, column)),
            severity: Some(HINT),
            code: Some(Code::Number(7)),
            message: name.to_string(),
            sent: Json::Null,
        });
    }
    list[0].severity = None;
    let findings = classify_by_position(&list);
    let names: Vec<&str> = findings.iter().map(|f| f.message.as_str()).collect();
    assert_eq!(names, vec!["a", "b", "c", "d"]);
    assert!(matches!(findings[0].kind, Kind::Minor));
    assert!(matches!(findings[2].kind, Kind::Fatal(None)));
}

#[test]
fn equal_keys_keep_their_order() {
    assert_eq!(ascending_order(&vec![3, 1, 3, 0, 1]), vec![3, 1, 4, 0, 2]);
}

#[test]
fn both_directions_of_a_conflict_are_one() {
    assert_eq!(order_names("flex", "block"), order_names("block", "flex"));
    assert_eq!(order_names("b", "a"), ("a".to_string(), "b".to_string()));
    let mut seen = SeenConflicts::new();
    assert!(seen.insert("a.rs", 3, &order_names("flex", "block")));
    assert!(!seen.insert("a.rs", 3, &order_names("block", "flex")));
    assert!(seen.insert("a.rs", 4, &order_names("block", "flex")));
    assert!(seen.insert("b.rs", 3, &order_names("block", "flex")));
}

#[test]
fn what_is_recorded_of_a_block_is_taken_once() {
    let mut items: BlockItems<String> = BlockItems::new();
    items.record("a.rs", 1, "x".to_string());
    items.record("b.rs", 1, "y".to_string());
    items.record("a.rs", 1, "z".to_string());
    assert_eq!(items.take("a.rs", 1), vec!["x", "z"]);
    assert!(items.take("a.rs", 1).is_empty());
    assert_eq!(items.take("b.rs", 1), vec!["y"]);
    assert!(items.take("b.rs", 2).is_empty());
}

#[test]
fn edits_of_the_value_and_repeats() {
    let classes = resolve_classes(&group(&["w-[100%]", "p-1", "w-full"]), &vec![value_edit(
        0, 8, "w-full",
    )]);
    assert_eq!(classes, vec!["w-full", "p-1"]);
    let classes = resolve_classes(
        &group(&["a", "b", "c"]),
        &vec![value_edit(0, 1, "long"), value_edit(4, 99, "d e"), value_edit(3, 2, "!")],
    );
    assert_eq!(classes, vec!["long", "b!", "d", "e"]);
    assert_eq!(resolve_classes(&group(&["a", "b", "a"]), &vec![]), vec!["a", "b"]);
}

#[test]
fn a_list_is_written_one_class_per_line() {
    let text = "fn f() {\n\t  base: tw![";
    let layout = BlockLayout::at(text, text.len());
    assert_eq!(layout.indent, "\t  ");
    let classes = vec!["a".to_string(), "b".to_string()];
    assert_eq!(
        format_class_list(&classes, &layout),
        "\n\t      \"a\",\n\t      \"b\",\n\t  "
    );
    assert_eq!(BlockLayout::at("  x", 1).indent, " ");
    assert_eq!(leading_whitespace(" \t x "), " \t ");
}

#[test]
fn colours_follow_the_environment() {
    assert_eq!(Palette::detect(false, true, false, false).warn, "\x1b[33m");
    assert_eq!(Palette::detect(false, false, true, false).error, "\x1b[31m");
    assert_eq!(Palette::detect(false, false, false, true).dim, "\x1b[2m");
    assert_eq!(Palette::detect(false, false, false, false).reset, "");
    assert_eq!(Palette::detect(true, true, true, true).bold, "");
}

#[test]
fn small_text_operations() {
    assert_eq!(decimal_text(0), "0");
    assert_eq!(decimal_text(18446744073709551615), "18446744073709551615");
    assert_eq!(split_words(" a\u{a0}b \n\tc\u{3000}"), vec!["a", "b", "c"]);
    assert_eq!(trim_text("\u{2003} a b \r\n"), "a b");
    assert_eq!(trim_text(" \n"), "");
    let parts = vec!["a".to_string(), "b".to_string()];
    assert_eq!(join_texts(&parts, ", "), "a, b");
    assert_eq!(
        split_once_text("a=b=c", '='),
        Some(("a".to_string(), "b=c".to_string()))
    );
    assert_eq!(split_once_text("abc", '='), None);
    assert!(comes_before("B", "a"));
    assert!(comes_before("a", "ab"));
    assert!(comes_before("z", "é"));
    assert!(!comes_before("a", "a"));
}

#[test]
fn every_white_space_character_separates_words() {
    let mut white = vec!['\t', '\n', '\u{b}', '\u{c}', '\r', ' ', '\u{85}', '\u{a0}', '\u{1680}'];
    white.extend('\u{2000}'..='\u{200a}');
    white.extend(['\u{2028}', '\u{2029}', '\u{202f}', '\u{205f}', '\u{3000}']);
    for c in char::MIN..=char::MAX {
        let words = split_words(&format!("a{c}b"));
        assert_eq!(words.len() == 2, white.contains(&c), "{c:?}");
    }
}
