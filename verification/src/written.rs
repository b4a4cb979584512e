//! A class list that was written into a block is found there again, and kept.
use crate::blocks::items_at;
use crate::fix::{
    law_unflagged_block_is_kept, rewritten, rewritten_all, source_notes, source_rewrite,
    FixRecordView, RewriteView,
};
use crate::groups::{
    line_at, list_in, lists_in, newlines_before, site_of, source_lists, GroupView, SiteView,
};
use crate::layout::{blank, class_lines, formatted, law_resolved_without_edits, plain_names};
use crate::literals::{literal_after, Literal, Prefix};
use crate::patterns::{macro_end, macros_from, string_parts};
use crate::scan::{
    brackets_at, close_from, close_of, closes_at, in_comment, masked, mode_after, mode_at, Brackets,
    Mode,
};
use crate::text::{
    first_position, lemma_encode_concat, lemma_first_position, lemma_no_position, starts_with,
    white_prefix,
};
use vstd::prelude::*;
use vstd::string::*;
use vstd::utf8::*;

verus! {

/// What a byte belongs to in a text that holds no comments.
spec fn literal_at(bytes: Seq<u8>, i: int) -> Literal
    decreases i,
{
    if i <= 0 {
        Literal::Code(Prefix::Nothing)
    } else {
        literal_after(literal_at(bytes, i - 1), bytes, i - 1)
    }
}

/// No slash of a range stands in code.
spec fn no_slashes(bytes: Seq<u8>, a: int, b: int) -> bool {
    forall|j: int| a <= j < b && #[trigger] literal_at(bytes, j) is Code ==> bytes[j] != 0x2f
}

/// No bracket of a range stands in code.
spec fn no_brackets(bytes: Seq<u8>, a: int, b: int) -> bool {
    forall|j: int|
        a <= j < b && #[trigger] literal_at(bytes, j) is Code ==> bytes[j] != 0x5b && bytes[j]
            != 0x5d
}

proof fn lemma_modes(bytes: Seq<u8>, i: int)
    requires
        0 <= i <= bytes.len(),
        no_slashes(bytes, 0, bytes.len() as int),
    ensures
        mode_at(bytes, i) == Mode::Plain(literal_at(bytes, i)),
    decreases i,
{
    if i > 0 {
        lemma_modes(bytes, i - 1);
        let literal = literal_at(bytes, i - 1);
        assert(literal is Code ==> bytes[i - 1] != 0x2f);
        assert(mode_at(bytes, i) == mode_after(mode_at(bytes, i - 1), bytes, i - 1));
    }
}

/// Where no slash stands in code there are no comments.
proof fn lemma_nothing_masked(bytes: Seq<u8>)
    requires
        no_slashes(bytes, 0, bytes.len() as int),
    ensures
        masked(bytes) == bytes,
{
    assert forall|i: int| 0 <= i < bytes.len() implies !#[trigger] in_comment(bytes, i) by {
        lemma_modes(bytes, i);
        assert(literal_at(bytes, i) is Code ==> bytes[i] != 0x2f);
    }
    assert(masked(bytes) =~= bytes);
}

proof fn lemma_brackets(bytes: Seq<u8>, start: int, i: int)
    requires
        0 <= start <= i,
        literal_at(bytes, start) == Literal::Code(Prefix::Nothing),
        no_brackets(bytes, start, i),
    ensures
        brackets_at(bytes, start, i) == (Brackets { depth: 1, literal: literal_at(bytes, i) }),
    decreases i - start,
{
    if i > start {
        lemma_brackets(bytes, start, i - 1);
        assert(literal_at(bytes, i - 1) is Code ==> bytes[i - 1] != 0x5b && bytes[i - 1] != 0x5d);
    }
}

proof fn lemma_close_from(bytes: Seq<u8>, start: int, i: int, end: int)
    requires
        0 <= start <= i <= end < bytes.len(),
        literal_at(bytes, start) == Literal::Code(Prefix::Nothing),
        no_brackets(bytes, start, end),
        literal_at(bytes, end) is Code,
        bytes[end] == 0x5d,
    ensures
        close_from(bytes, start, i) == Some(end),
    decreases end - i,
{
    lemma_brackets(bytes, start, i);
    if i < end {
        assert(literal_at(bytes, i) is Code ==> bytes[i] != 0x5b && bytes[i] != 0x5d);
        assert(!closes_at(bytes, start, i));
        lemma_close_from(bytes, start, i + 1, end);
    }
}

/// A space, a tab, a newline or a comma.
spec fn between_words(byte: u8) -> bool {
    byte == 0x20 || byte == 0x09 || byte == 0x0a || byte == 0x2c
}

/// Between words no literal begins.
proof fn lemma_between_words(bytes: Seq<u8>, a: int, b: int)
    requires
        0 <= a < b <= bytes.len(),
        forall|j: int| a <= j < b ==> between_words(#[trigger] bytes[j]),
        literal_at(bytes, a) is Code,
    ensures
        literal_at(bytes, b) == Literal::Code(Prefix::Nothing),
        no_slashes(bytes, a, b),
        no_brackets(bytes, a, b),
    decreases b - a,
{
    if b - 1 > a {
        lemma_between_words(bytes, a, b - 1);
    }
    assert(between_words(bytes[b - 1]));
    assert(literal_at(bytes, b) == literal_after(literal_at(bytes, b - 1), bytes, b - 1));
    assert forall|j: int| a <= j < b && #[trigger] literal_at(bytes, j) is Code implies bytes[j]
        != 0x2f && bytes[j] != 0x5b && bytes[j] != 0x5d by {
        assert(between_words(bytes[j]));
    }
}

/// A string goes on up to its quote.
proof fn lemma_in_string(bytes: Seq<u8>, a: int, b: int)
    requires
        0 <= a <= b <= bytes.len(),
        forall|j: int| a <= j < b ==> (#[trigger] bytes[j]) != 0x22 && bytes[j] != 0x5c,
        literal_at(bytes, a) == Literal::Text,
    ensures
        forall|j: int| a <= j <= b ==> #[trigger] literal_at(bytes, j) == Literal::Text,
    decreases b - a,
{
    if a < b {
        lemma_in_string(bytes, a, b - 1);
        assert(bytes[b - 1] != 0x22 && bytes[b - 1] != 0x5c);
        assert(literal_at(bytes, b) == literal_after(literal_at(bytes, b - 1), bytes, b - 1));
    }
}

/// A byte of ASCII stands for itself wherever it occurs.
proof fn lemma_ascii_byte(text: Seq<char>, i: int)
    requires
        0 <= i < encode_utf8(text).len(),
        encode_utf8(text)[i] < 0x80,
    ensures
        exists|k: int| 0 <= k < text.len() && #[trigger] text[k] as u32 == encode_utf8(text)[i],
    decreases text.len(),
{
    let bytes = encode_utf8(text);
    let c = text[0] as u32;
    let first = encode_scalar(c);
    let rest = text.drop_first();
    assert(c <= 0x7f ==> leading_byte_width_1(c) == c) by (bit_vector);
    assert(leading_byte_width_2(c) >= 0x80) by (bit_vector);
    assert(leading_byte_width_3(c) >= 0x80) by (bit_vector);
    assert(leading_byte_width_4(c) >= 0x80) by (bit_vector);
    assert(last_continuation_byte(c) >= 0x80) by (bit_vector);
    assert(second_last_continuation_byte(c) >= 0x80) by (bit_vector);
    assert(third_last_continuation_byte(c) >= 0x80) by (bit_vector);
    if i < first.len() {
        assert(bytes[i] == first[i]);
        assert(text[0] as u32 == bytes[i]);
    } else {
        assert(bytes[i] == encode_utf8(rest)[i - first.len()]);
        lemma_ascii_byte(rest, i - first.len());
        let k = choose|k: int| 0 <= k < rest.len() && #[trigger] rest[k] as u32 == bytes[i];
        assert(text[k + 1] as u32 == bytes[i]);
    }
}

/// The name of the macro stands at a place of a text.
pub open spec fn macro_name_at(text: Seq<char>, i: int) -> bool {
    0 <= i && i + 3 <= text.len() && text[i] == 't' && text[i + 1] == 'w' && text[i + 2] == '!'
}

/// The name of the macro stands nowhere in a text.
pub open spec fn without_macro(text: Seq<char>) -> bool {
    forall|i: int| !#[trigger] macro_name_at(text, i)
}

/// A class that can stand in a string as it is.
pub open spec fn listable(class: Seq<char>) -> bool {
    !class.contains('"') && !class.contains('\\') && without_macro(class)
}

/// Spaces and tabs.
pub open spec fn blanks(text: Seq<char>) -> bool {
    forall|i: int| 0 <= i < text.len() ==> blank(#[trigger] text[i])
}

/// A block on a line of its own, as a fix writes it.
pub open spec fn written_block(classes: Seq<Seq<char>>, indent: Seq<char>) -> Seq<char> {
    indent + "tw!["@ + formatted(classes, indent) + "]"@
}

/// What leads to a class in its line.
spec fn line_lead(indent: Seq<char>) -> Seq<char> {
    seq!['\n'] + indent + "    "@
}

/// The line of a class.
spec fn class_line(class: Seq<char>, indent: Seq<char>) -> Seq<char> {
    line_lead(indent) + seq!['"'] + class + seq!['"', ',']
}

proof fn lemma_lines_end(classes: Seq<Seq<char>>, indent: Seq<char>)
    requires
        classes.len() > 0,
    ensures
        class_lines(classes, indent) == class_lines(classes.drop_last(), indent) + class_line(
            classes.last(),
            indent,
        ),
{
    reveal_strlit("\n");
    reveal_strlit("\"");
    reveal_strlit("\",");
    assert(class_lines(classes, indent) =~= class_lines(classes.drop_last(), indent) + class_line(
        classes.last(),
        indent,
    ));
}

proof fn lemma_lead(indent: Seq<char>)
    requires
        blanks(indent),
    ensures
        line_lead(indent).len() == indent.len() + 5,
        is_ascii_chars(line_lead(indent)),
        forall|i: int|
            0 <= i < line_lead(indent).len() ==> {
                let c = #[trigger] line_lead(indent)[i];
                c == '\n' || c == ' ' || c == '\t'
            },
{
    reveal_strlit("    ");
    let lead = line_lead(indent);
    assert forall|i: int| 0 <= i < lead.len() implies ({
        let c = #[trigger] lead[i];
        c == '\n' || c == ' ' || c == '\t'
    }) by {
        if 1 <= i && i < indent.len() + 1 {
            assert(blank(indent[i - 1]));
        }
    }
}

/// Behind a part of a text its bytes go on with those of the next part.
proof fn lemma_line_bytes(class: Seq<char>, indent: Seq<char>)
    ensures
        encode_utf8(class_line(class, indent)) == encode_utf8(line_lead(indent)) + seq![0x22u8]
            + encode_utf8(class) + seq![0x22u8, 0x2cu8],
{
    let lead = line_lead(indent);
    let quote = seq!['"'];
    let end = seq!['"', ','];
    lemma_encode_concat(lead + quote + class, end);
    lemma_encode_concat(lead + quote, class);
    lemma_encode_concat(lead, quote);
    is_ascii_chars_encode_utf8(quote);
    is_ascii_chars_encode_utf8(end);
    assert(encode_utf8(quote)[0] == quote[0] as u8);
    assert(encode_utf8(end)[0] == end[0] as u8);
    assert(encode_utf8(end)[1] == end[1] as u8);
    assert(encode_utf8(quote) =~= seq![0x22u8]);
    assert(encode_utf8(end) =~= seq![0x22u8, 0x2cu8]);
}

/// The line of a class leaves code as code, with the class in a string.
proof fn lemma_line_run(bytes: Seq<u8>, a: int, class: Seq<char>, indent: Seq<char>)
    requires
        blanks(indent),
        listable(class),
        0 <= a,
        a + encode_utf8(class_line(class, indent)).len() <= bytes.len(),
        forall|i: int|
            0 <= i < encode_utf8(class_line(class, indent)).len() ==> bytes[a + i]
                == #[trigger] encode_utf8(class_line(class, indent))[i],
        literal_at(bytes, a) is Code,
    ensures
        ({
            let b = a + encode_utf8(class_line(class, indent)).len();
            &&& literal_at(bytes, b) == Literal::Code(Prefix::Nothing)
            &&& no_slashes(bytes, a, b)
            &&& no_brackets(bytes, a, b)
        }),
{
    let lead = line_lead(indent);
    let name = encode_utf8(class);
    let line = encode_utf8(class_line(class, indent));
    lemma_lead(indent);
    lemma_line_bytes(class, indent);
    is_ascii_chars_encode_utf8(lead);
    let m = a + lead.len();
    let e = m + 1 + name.len();
    assert forall|j: int| a <= j < m implies between_words(#[trigger] bytes[j]) by {
        assert(bytes[a + (j - a)] == line[j - a]);
        assert(line[j - a] == encode_utf8(lead)[j - a]);
        assert(lead[j - a] as u8 == encode_utf8(lead)[j - a]);
    }
    lemma_between_words(bytes, a, m);
    assert(bytes[a + (m - a)] == line[m - a]);
    assert(bytes[m] == 0x22);
    assert(literal_at(bytes, m + 1) == literal_after(literal_at(bytes, m), bytes, m));
    assert forall|j: int| m + 1 <= j < e implies (#[trigger] bytes[j]) != 0x22 && bytes[j]
        != 0x5c by {
        let i = j - (m + 1);
        assert(bytes[a + (j - a)] == line[j - a]);
        assert(bytes[j] == name[i]);
        if bytes[j] == 0x22 || bytes[j] == 0x5c {
            lemma_ascii_byte(class, i);
            let k = choose|k: int| 0 <= k < class.len() && #[trigger] class[k] as u32 == name[i];
            char_u32_cast(class[k], name[i] as u32);
            char_u32_cast('"', 0x22);
            char_u32_cast('\\', 0x5c);
            assert(class[k] == '"' || class[k] == '\\');
            assert(class.contains(class[k]));
        }
    }
    lemma_in_string(bytes, m + 1, e);
    assert(bytes[a + (e - a)] == line[e - a]);
    assert(bytes[e] == 0x22);
    assert(literal_at(bytes, e + 1) == literal_after(literal_at(bytes, e), bytes, e));
    assert(bytes[a + (e + 1 - a)] == line[e + 1 - a]);
    assert(bytes[e + 1] == 0x2c);
    assert(literal_at(bytes, e + 2) == literal_after(literal_at(bytes, e + 1), bytes, e + 1));
    let b = e + 2;
    assert(b == a + line.len());
    assert forall|j: int| a <= j < b && #[trigger] literal_at(bytes, j) is Code implies bytes[j]
        != 0x2f && bytes[j] != 0x5b && bytes[j] != 0x5d by {
        if m + 1 <= j && j <= e {
            assert(literal_at(bytes, j) == Literal::Text);
        }
    }
}

/// The lines of some classes leave code as code.
proof fn lemma_lines_run(bytes: Seq<u8>, a: int, classes: Seq<Seq<char>>, indent: Seq<char>)
    requires
        blanks(indent),
        forall|i: int| 0 <= i < classes.len() ==> listable(#[trigger] classes[i]),
        0 <= a,
        a + encode_utf8(class_lines(classes, indent)).len() <= bytes.len(),
        forall|i: int|
            0 <= i < encode_utf8(class_lines(classes, indent)).len() ==> bytes[a + i]
                == #[trigger] encode_utf8(class_lines(classes, indent))[i],
        literal_at(bytes, a) is Code,
    ensures
        ({
            let b = a + encode_utf8(class_lines(classes, indent)).len();
            &&& literal_at(bytes, b) is Code
            &&& no_slashes(bytes, a, b)
            &&& no_brackets(bytes, a, b)
        }),
    decreases classes.len(),
{
    if classes.len() > 0 {
        let rest = classes.drop_last();
        let before = encode_utf8(class_lines(rest, indent));
        let line = encode_utf8(class_line(classes.last(), indent));
        let whole = encode_utf8(class_lines(classes, indent));
        lemma_lines_end(classes, indent);
        lemma_encode_concat(class_lines(rest, indent), class_line(classes.last(), indent));
        assert(whole == before + line);
        assert forall|i: int| 0 <= i < rest.len() implies listable(#[trigger] rest[i]) by {
            assert(rest[i] == classes[i]);
        }
        assert forall|i: int| 0 <= i < before.len() implies bytes[a + i] == #[trigger] before[i] by {
            assert(whole[i] == before[i]);
        }
        lemma_lines_run(bytes, a, rest, indent);
        let m = a + before.len();
        assert forall|i: int| 0 <= i < line.len() implies bytes[m + i] == #[trigger] line[i] by {
            assert(whole[before.len() + i] == line[i]);
            assert(bytes[a + (before.len() + i)] == whole[before.len() + i]);
        }
        assert(listable(classes[classes.len() - 1]));
        lemma_line_run(bytes, m, classes.last(), indent);
        let b = m + line.len();
        assert forall|j: int| a <= j < b && #[trigger] literal_at(bytes, j) is Code implies bytes[j]
            != 0x2f && bytes[j] != 0x5b && bytes[j] != 0x5d by {
            if j < m {
                assert(no_slashes(bytes, a, m) && no_brackets(bytes, a, m));
            } else {
                assert(no_slashes(bytes, m, b) && no_brackets(bytes, m, b));
            }
        }
    }
}

/// The name of the macro cannot reach over a character that it does not hold.
proof fn lemma_macro_apart(a: Seq<char>, c: char, b: Seq<char>)
    requires
        without_macro(a),
        without_macro(b),
        c != 't' && c != 'w' && c != '!',
    ensures
        without_macro(a + seq![c] + b),
{
    let whole = a + seq![c] + b;
    assert forall|i: int| !#[trigger] macro_name_at(whole, i) by {
        if macro_name_at(whole, i) {
            let n = a.len() as int;
            assert(whole[n] == c);
            if i + 3 <= n {
                assert(macro_name_at(a, i));
            } else if i > n {
                assert(macro_name_at(b, i - n - 1));
            }
        }
    }
}

proof fn lemma_lines_without_macro(classes: Seq<Seq<char>>, indent: Seq<char>)
    requires
        blanks(indent),
        forall|i: int| 0 <= i < classes.len() ==> listable(#[trigger] classes[i]),
    ensures
        without_macro(class_lines(classes, indent)),
    decreases classes.len(),
{
    if classes.len() > 0 {
        let rest = classes.drop_last();
        let name = classes.last();
        let front = class_lines(rest, indent);
        let inner = line_lead(indent).drop_first();
        assert forall|i: int| 0 <= i < rest.len() implies listable(#[trigger] rest[i]) by {
            assert(rest[i] == classes[i]);
        }
        lemma_lines_without_macro(rest, indent);
        lemma_lead(indent);
        assert(line_lead(indent)[0] == '\n');
        assert forall|i: int| !#[trigger] macro_name_at(inner, i) by {
            if macro_name_at(inner, i) {
                assert(inner[i] == line_lead(indent)[i + 1]);
            }
        }
        assert(listable(classes[classes.len() - 1]));
        lemma_macro_apart(front, '\n', inner);
        lemma_macro_apart(front + seq!['\n'] + inner, '"', name);
        let comma = seq![','];
        assert forall|i: int| !#[trigger] macro_name_at(comma, i) by {}
        lemma_macro_apart(front + seq!['\n'] + inner + seq!['"'] + name, '"', comma);
        lemma_lines_end(classes, indent);
        assert(class_lines(classes, indent) =~= front + seq!['\n'] + inner + seq!['"'] + name
            + seq!['"'] + comma);
    }
}

proof fn lemma_no_macros(text: Seq<char>, offset: int)
    requires
        without_macro(text),
    ensures
        macros_from(text, offset) == Seq::<(int, int)>::empty(),
    decreases text.len(),
{
    if text.len() > 0 {
        let rest = text.drop_first();
        reveal_strlit("tw!");
        if starts_with(text, "tw!"@) {
            assert(text.take(3)[0] == text[0] && text.take(3)[1] == text[1] && text.take(3)[2]
                == text[2]);
            assert(macro_name_at(text, 0));
        }
        assert forall|i: int| !#[trigger] macro_name_at(rest, i) by {
            if macro_name_at(rest, i) {
                assert(macro_name_at(text, i + 1));
            }
        }
        lemma_no_macros(rest, offset + encode_utf8(text.take(1)).len());
    }
}

/// Blanks in front of a text move its openings.
proof fn lemma_macros_behind(front: Seq<char>, text: Seq<char>, offset: int)
    requires
        blanks(front),
    ensures
        macros_from(front + text, offset) == macros_from(text, offset + encode_utf8(front).len()),
    decreases front.len(),
{
    let whole = front + text;
    if front.len() == 0 {
        assert(whole =~= text);
    } else {
        let rest = front.drop_first();
        reveal_strlit("tw!");
        assert(blank(front[0]));
        if starts_with(whole, "tw!"@) {
            assert(whole.take(3)[0] == whole[0]);
        }
        assert forall|i: int| 0 <= i < rest.len() implies blank(#[trigger] rest[i]) by {
            assert(rest[i] == front[i + 1]);
        }
        assert(whole.drop_first() =~= rest + text);
        assert(front =~= whole.take(1) + rest);
        lemma_encode_concat(whole.take(1), rest);
        lemma_macros_behind(rest, text, offset + encode_utf8(whole.take(1)).len());
    }
}

/// The opening of a block is found where it stands.
proof fn lemma_block_opening(indent: Seq<char>, back: Seq<char>)
    requires
        blanks(indent),
        without_macro(back),
    ensures
        macros_from(indent + "tw!["@ + back, 0) == seq![
            (
                encode_utf8(indent).len() as int,
                encode_utf8(indent + "tw!["@).len() as int,
            ),
        ],
{
    reveal_strlit("tw![");
    reveal_strlit("tw!");
    let text = "tw!["@ + back;
    let offset = encode_utf8(indent).len() as int;
    assert(indent + "tw!["@ + back =~= indent + text);
    lemma_macros_behind(indent, text, 0);
    assert(text.take(3) =~= "tw!"@);
    assert(text.skip(3)[0] == '[');
    assert(white_prefix(text.skip(3)) == 0);
    assert(macro_end(text) == Some(4int));
    assert(text.take(4) =~= "tw!["@);
    assert(text.skip(4) =~= back);
    lemma_encode_concat(indent, "tw!["@);
    let behind = offset + encode_utf8("tw!["@).len();
    lemma_no_macros(back, behind);
    assert(macros_from(text, offset) =~= seq![(offset, behind)]);
}

/// The strings behind a text without quotes.
proof fn lemma_strings_behind(front: Seq<char>, back: Seq<char>)
    requires
        !front.contains('"'),
    ensures
        string_parts(front + back) == string_parts(back),
{
    let whole = front + back;
    lemma_position_behind(front, back);
    let open = first_position(back, '"') as int;
    if open < back.len() {
        assert(whole.skip(front.len() + open + 1) =~= back.skip(open + 1));
    }
}

proof fn lemma_position_behind(front: Seq<char>, back: Seq<char>)
    requires
        !front.contains('"'),
    ensures
        first_position(front + back, '"') == front.len() + first_position(back, '"'),
    decreases front.len(),
{
    let whole = front + back;
    if front.len() == 0 {
        assert(whole =~= back);
    } else {
        let rest = front.drop_first();
        assert(front.contains(front[0]));
        assert(whole[0] == front[0]);
        assert(whole.drop_first() =~= rest + back);
        assert forall|i: int| 0 <= i < rest.len() implies rest[i] != '"' by {
            assert(front.contains(front[i + 1]));
        }
        lemma_position_behind(rest, back);
    }
}

/// The string of a line is its class.
proof fn lemma_strings_of_line(name: Seq<char>, indent: Seq<char>, back: Seq<char>)
    requires
        blanks(indent),
        !name.contains('"'),
    ensures
        string_parts(class_line(name, indent) + back) == seq![name] + string_parts(back),
{
    let lead = line_lead(indent);
    let behind = seq![','] + back;
    let quoted = name + seq!['"'] + behind;
    let string = seq!['"'] + quoted;
    lemma_lead(indent);
    assert(!lead.contains('"'));
    assert(class_line(name, indent) + back =~= lead + string);
    lemma_strings_behind(lead, string);
    assert(string[0] == '"');
    assert(first_position(string, '"') == 0);
    assert(string.skip(1) =~= quoted);
    lemma_first_position(name, '"', behind);
    assert(quoted.take(name.len() as int) =~= name);
    assert(quoted.skip(name.len() as int + 1) =~= behind);
    lemma_strings_behind(seq![','], back);
}

/// The strings of some lines are their classes.
proof fn lemma_strings_of_lines(classes: Seq<Seq<char>>, indent: Seq<char>, back: Seq<char>)
    requires
        blanks(indent),
        forall|i: int| 0 <= i < classes.len() ==> listable(#[trigger] classes[i]),
    ensures
        string_parts(class_lines(classes, indent) + back) == classes + string_parts(back),
    decreases classes.len(),
{
    if classes.len() == 0 {
        assert(class_lines(classes, indent) + back =~= back);
        assert(classes + string_parts(back) =~= string_parts(back));
    } else {
        let rest = classes.drop_last();
        let name = classes.last();
        let line = class_line(name, indent) + back;
        assert forall|i: int| 0 <= i < rest.len() implies listable(#[trigger] rest[i]) by {
            assert(rest[i] == classes[i]);
        }
        lemma_lines_end(classes, indent);
        assert(class_lines(classes, indent) + back =~= class_lines(rest, indent) + line);
        lemma_strings_of_lines(rest, indent, line);
        assert(listable(classes[classes.len() - 1]));
        lemma_strings_of_line(name, indent, back);
        assert(rest + (seq![name] + string_parts(back)) =~= classes + string_parts(back));
    }
}

proof fn lemma_strings_of_list(classes: Seq<Seq<char>>, indent: Seq<char>)
    requires
        blanks(indent),
        forall|i: int| 0 <= i < classes.len() ==> listable(#[trigger] classes[i]),
    ensures
        string_parts(formatted(classes, indent)) == classes,
{
    reveal_strlit("\n");
    let back = "\n"@ + indent;
    assert(formatted(classes, indent) =~= class_lines(classes, indent) + back);
    lemma_strings_of_lines(classes, indent, back);
    assert forall|i: int| 0 <= i < back.len() implies back[i] != '"' by {
        if i > 0 {
            assert(blank(indent[i - 1]));
        }
    }
    lemma_no_position(back, '"');
    assert(classes + string_parts(back) =~= classes);
}

proof fn lemma_no_newlines(bytes: Seq<u8>, i: int)
    requires
        0 <= i <= bytes.len(),
        forall|j: int| 0 <= j < i ==> #[trigger] bytes[j] != 0x0a,
    ensures
        newlines_before(bytes, i) == 0,
    decreases i,
{
    if i > 0 {
        lemma_no_newlines(bytes, i - 1);
        assert(bytes[i - 1] != 0x0a);
    }
}

/// Behind the opening of a block its list is code, up to the bracket that closes
/// it, and nothing of it is a comment.
proof fn lemma_block_scan(classes: Seq<Seq<char>>, indent: Seq<char>)
    requires
        blanks(indent),
        forall|i: int| 0 <= i < classes.len() ==> listable(#[trigger] classes[i]),
    ensures
        ({
            let bytes = encode_utf8(written_block(classes, indent));
            let start = encode_utf8(indent + "tw!["@).len() as int;
            let list = encode_utf8(formatted(classes, indent));
            &&& masked(bytes) == bytes
            &&& close_of(bytes, start) == Some(start + list.len())
            &&& bytes.subrange(start, start + list.len()) == list
            &&& newlines_before(bytes, encode_utf8(indent).len() as int) == 0
            &&& start + list.len() < bytes.len()
        }),
{
    reveal_strlit("tw![");
    reveal_strlit("]");
    reveal_strlit("\n");
    let head = indent + "tw!["@;
    let lines = class_lines(classes, indent);
    let tail = "\n"@ + indent;
    let end_mark = "]"@;
    let bytes = encode_utf8(written_block(classes, indent));
    let list = encode_utf8(formatted(classes, indent));
    assert(formatted(classes, indent) =~= lines + tail);
    lemma_encode_concat(lines, tail);
    lemma_encode_concat(head + formatted(classes, indent), end_mark);
    lemma_encode_concat(head, formatted(classes, indent));
    let front = encode_utf8(head);
    assert(is_ascii_chars(head)) by {
        assert forall|i: int| 0 <= i < head.len() implies '\0' <= #[trigger] head[i] <= '\u{7f}' by {
            if i < indent.len() {
                assert(blank(indent[i]));
            }
        }
    }
    assert(is_ascii_chars(indent)) by {
        assert forall|i: int| 0 <= i < indent.len() implies '\0' <= #[trigger] indent[i]
            <= '\u{7f}' by {
            assert(blank(indent[i]));
        }
    }
    assert(is_ascii_chars(tail)) by {
        assert forall|i: int| 0 <= i < tail.len() implies '\0' <= #[trigger] tail[i] <= '\u{7f}' by {
            if i > 0 {
                assert(blank(indent[i - 1]));
            }
        }
    }
    is_ascii_chars_encode_utf8(head);
    is_ascii_chars_encode_utf8(indent);
    is_ascii_chars_encode_utf8(tail);
    is_ascii_chars_encode_utf8(end_mark);
    let n = indent.len() as int;
    let start = front.len() as int;
    let end = start + list.len();
    assert(bytes == front + list + encode_utf8(end_mark));
    assert(bytes.subrange(start, end) =~= list);
    assert forall|j: int| 0 <= j < start implies #[trigger] bytes[j] == head[j] as u8 by {
        assert(bytes[j] == front[j]);
        assert(head[j] as u8 == front[j]);
    }
    assert forall|j: int| 0 <= j < n implies between_words(#[trigger] bytes[j]) && bytes[j]
        != 0x0a by {
        assert(head[j] == indent[j]);
        assert(blank(indent[j]));
    }
    lemma_no_newlines(bytes, n);
    if n > 0 {
        lemma_between_words(bytes, 0, n);
    }
    assert(literal_at(bytes, n) == Literal::Code(Prefix::Nothing));
    assert(head[n] == 't' && head[n + 1] == 'w' && head[n + 2] == '!' && head[n + 3] == '[');
    assert(bytes[n] == 0x74 && bytes[n + 1] == 0x77 && bytes[n + 2] == 0x21 && bytes[n + 3]
        == 0x5b);
    assert(literal_at(bytes, n + 1) == literal_after(literal_at(bytes, n), bytes, n));
    assert(literal_at(bytes, n + 2) == literal_after(literal_at(bytes, n + 1), bytes, n + 1));
    assert(literal_at(bytes, n + 3) == literal_after(literal_at(bytes, n + 2), bytes, n + 2));
    assert(literal_at(bytes, n + 4) == literal_after(literal_at(bytes, n + 3), bytes, n + 3));
    assert(start == n + 4);
    assert(literal_at(bytes, start) == Literal::Code(Prefix::Nothing));
    let inner = encode_utf8(lines);
    assert forall|i: int| 0 <= i < inner.len() implies bytes[start + i] == #[trigger] inner[i] by {
        assert(list[i] == inner[i]);
    }
    lemma_lines_run(bytes, start, classes, indent);
    let m = start + inner.len();
    assert(end == m + tail.len());
    assert forall|j: int| m <= j < end implies between_words(#[trigger] bytes[j]) by {
        let i = j - m;
        assert(bytes[j] == list[inner.len() + i]);
        assert(list[inner.len() + i] == encode_utf8(tail)[i]);
        assert(tail[i] as u8 == encode_utf8(tail)[i]);
        if i > 0 {
            assert(blank(indent[i - 1]));
        }
    }
    lemma_between_words(bytes, m, end);
    assert(end_mark[0] as u8 == encode_utf8(end_mark)[0]);
    assert(bytes[end] == 0x5d);
    assert forall|j: int| start <= j < end && #[trigger] literal_at(
        bytes,
        j,
    ) is Code implies bytes[j] != 0x5b && bytes[j] != 0x5d by {
        if j < m {
            assert(no_brackets(bytes, start, m));
        } else {
            assert(no_brackets(bytes, m, end));
        }
    }
    lemma_close_from(bytes, start, start, end);
    assert forall|j: int| 0 <= j < bytes.len() && #[trigger] literal_at(
        bytes,
        j,
    ) is Code implies bytes[j] != 0x2f by {
        if j < n {
            assert(between_words(bytes[j]));
        } else if j < start {
        } else if j < m {
            assert(no_slashes(bytes, start, m));
        } else if j < end {
            assert(no_slashes(bytes, m, end));
        }
    }
    lemma_nothing_masked(bytes);
}

/// A class list that a fix has written is found again, and so are its classes:
/// extracting from the block gives that block alone, with the span of its list.
pub proof fn law_written_list_is_found(
    file: Seq<char>,
    classes: Seq<Seq<char>>,
    indent: Seq<char>,
)
    requires
        blanks(indent),
        classes.len() > 0,
        forall|i: int| 0 <= i < classes.len() ==> listable(#[trigger] classes[i]),
    ensures
        ({
            let start = encode_utf8(indent + "tw!["@).len() as int;
            let list = encode_utf8(formatted(classes, indent));
            let end = start + list.len();
            &&& source_lists(file, written_block(classes, indent)) == seq![
                GroupView { file, line: 1, start, end, classes },
            ]
            &&& encode_utf8(written_block(classes, indent)).subrange(start, end) == list
        }),
{
    reveal_strlit("]");
    reveal_strlit("\n");
    let text = written_block(classes, indent);
    let bytes = encode_utf8(text);
    let list = formatted(classes, indent);
    let offset = encode_utf8(indent).len() as int;
    let start = encode_utf8(indent + "tw!["@).len() as int;
    let end = start + encode_utf8(list).len();
    lemma_block_scan(classes, indent);
    encode_utf8_decode_utf8(text);
    encode_utf8_decode_utf8(list);
    lemma_lines_without_macro(classes, indent);
    let lines = class_lines(classes, indent);
    assert forall|i: int| !#[trigger] macro_name_at(indent, i) by {
        if macro_name_at(indent, i) {
            assert(blank(indent[i]));
        }
    }
    let none = Seq::<char>::empty();
    assert forall|i: int| !#[trigger] macro_name_at(none, i) by {}
    lemma_macro_apart(lines, '\n', indent);
    lemma_macro_apart(lines + seq!['\n'] + indent, ']', none);
    let back = list + "]"@;
    assert(back =~= lines + seq!['\n'] + indent + seq![']'] + none);
    assert(text =~= indent + "tw!["@ + back);
    lemma_block_opening(indent, back);
    let openers = seq![(offset, start)];
    assert(macros_from(text, 0) == openers);
    assert(line_at(bytes, offset) == 1);
    assert(site_of(bytes, (offset, start)) == Some(SiteView { line: 1, start, end }));
    lemma_strings_of_list(classes, indent);
    let group = GroupView { file, line: 1, start, end, classes };
    assert(list_in(file, bytes, openers.last()) == Some(group));
    assert(openers.drop_last() =~= Seq::empty());
    assert(lists_in(file, bytes, openers.drop_last()) =~= Seq::empty());
    assert(lists_in(file, bytes, openers) =~= seq![group]);
}

/// A block that a fix has written stays as it is in the next one, where nothing
/// new is suggested for it.
pub proof fn law_written_block_is_kept(
    record: FixRecordView,
    file: Seq<char>,
    classes: Seq<Seq<char>>,
    indent: Seq<char>,
)
    requires
        blanks(indent),
        classes.len() > 0,
        forall|i: int| 0 <= i < classes.len() ==> listable(#[trigger] classes[i]),
        plain_names(classes),
        classes.no_duplicates(),
        items_at(record.edits, (file, encode_utf8(indent + "tw!["@).len() as int)).len() == 0,
    ensures
        source_rewrite(
            record,
            file,
            written_block(classes, indent),
            source_lists(file, written_block(classes, indent)),
        ) == RewriteView::Keep,
{
    let text = written_block(classes, indent);
    let bytes = encode_utf8(text);
    let groups = source_lists(file, text);
    let notes = source_notes(record);
    let start = encode_utf8(indent + "tw!["@).len() as int;
    law_written_list_is_found(file, classes, indent);
    lemma_block_scan(classes, indent);
    let group = groups[0];
    let list = encode_utf8(formatted(classes, indent));
    encode_utf8_valid_utf8(text);
    assert(is_char_boundary(bytes, start)) by {
        let front = indent + "tw!["@;
        lemma_encode_concat(front + formatted(classes, indent), "]"@);
        lemma_encode_concat(front, formatted(classes, indent));
        encode_utf8_valid_utf8(formatted(classes, indent));
        assert(bytes[start] == list[0] || list.len() == 0);
        if list.len() > 0 {
            is_char_boundary_start_end_of_seq(list);
            is_char_boundary_iff_not_is_continuation_byte(list, 0);
            is_char_boundary_iff_not_is_continuation_byte(bytes, start);
        } else {
            reveal_strlit("\n");
            lemma_encode_concat(class_lines(classes, indent) + "\n"@, indent);
            lemma_encode_concat(class_lines(classes, indent), "\n"@);
            is_ascii_chars_encode_utf8("\n"@);
        }
    }
    law_resolved_without_edits(classes);
    law_unflagged_block_is_kept(notes, file, bytes, group);
    assert(groups.drop_last() =~= Seq::empty());
    assert(rewritten_all(notes, file, bytes, groups.drop_last()) == notes);
    assert(rewritten_all(notes, file, bytes, groups) == rewritten(notes, file, bytes, group));
}

} // verus!
