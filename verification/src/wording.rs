//! How texts are put together, taken apart and compared, and the order and the
//! lines in which findings are reported.
use crate::conflicts::in_order;
use crate::document::document_of;
use crate::finding::{by_position, classified_all, KindView};
use crate::groups::{line_at, newlines_before, GroupView};
use crate::order::{arranged, ascending, law_ascending, place_for, ranks_before};
use crate::patterns::{conflict_in, replacement_part};
use crate::positions::newlines_in;
use crate::protocol::{CodeView, DiagnosticView, Position};
use crate::report::{diagnostic_lines, fatal_in, fatal_total, rendered};
use crate::session::FileView;
use crate::text::{
    bytes_before, decimal, is_white, joined, last_position, lemma_first_position, lemma_no_position,
    split_once_at, text_before, trimmed, trimmed_end, white_prefix, word_length, words,
};
use vstd::prelude::*;
use vstd::utf8::encode_utf8;

verus! {

/// The number that decimal digits stand for.
pub open spec fn worth(digits: Seq<char>) -> int
    decreases digits.len(),
{
    if digits.len() == 0 {
        0
    } else {
        worth(digits.drop_last()) * 10 + (digits.last() as u32 - 48)
    }
}

/// A number is written in decimal digits that stand for it, without a zero before
/// them.
pub proof fn law_decimal(n: nat)
    ensures
        worth(decimal(n)) == n,
        decimal(n).len() > 0,
        decimal(n).len() > 1 ==> decimal(n)[0] != '0',
        forall|i: int| 0 <= i < decimal(n).len() ==> '0' <= #[trigger] decimal(n)[i] <= '9',
    decreases n,
{
    assert((48 + n % 10) as char as u32 == 48 + n % 10);
    if n < 10 {
        assert(decimal(n).drop_last() =~= Seq::empty());
        assert(worth(decimal(n).drop_last()) == 0);
    } else {
        law_decimal(n / 10);
        let front = decimal(n / 10);
        assert(decimal(n).drop_last() =~= front);
        assert(decimal(n)[0] == front[0]);
        if front.len() == 1 {
            assert(front.drop_last() =~= Seq::empty());
            assert(worth(front.drop_last()) == 0);
            assert(worth(front) == front[0] as u32 - 48);
        }
    }
}

/// To join a list of texts is to join its two parts and put the separator between
/// them, wherever it is parted; one text is joined to itself.
pub proof fn law_joined(a: Seq<Seq<char>>, b: Seq<Seq<char>>, one: Seq<char>, separator: Seq<char>)
    ensures
        joined(Seq::empty(), separator) == Seq::<char>::empty(),
        joined(seq![one], separator) == one,
        a.len() > 0 && b.len() > 0 ==> joined(a + b, separator) == joined(a, separator) + separator
            + joined(b, separator),
    decreases b.len(),
{
    if a.len() > 0 && b.len() > 0 {
        let whole = a + b;
        assert(whole.drop_last() =~= a + b.drop_last());
        if b.len() == 1 {
            assert(a + b.drop_last() =~= a);
        } else {
            law_joined(a, b.drop_last(), one, separator);
        }
        assert(joined(whole, separator) =~= joined(a, separator) + separator + joined(
            b,
            separator,
        ));
    }
}

/// Spaces, tabs and line ends are white space, and no printed character of ASCII is.
pub proof fn law_white(c: char)
    ensures
        is_white(' '),
        is_white('\t'),
        is_white('\n'),
        is_white('\r'),
        is_white('\u{a0}'),
        is_white('\u{2003}'),
        is_white('\u{3000}'),
        '!' <= c <= '~' ==> !is_white(c),
{
}

/// A text without white space.
pub open spec fn solid(text: Seq<char>) -> bool {
    forall|i: int| 0 <= i < text.len() ==> !is_white(#[trigger] text[i])
}

/// A text of white space alone.
pub open spec fn all_white(text: Seq<char>) -> bool {
    forall|i: int| 0 <= i < text.len() ==> is_white(#[trigger] text[i])
}

pub proof fn lemma_solid_length(text: Seq<char>, rest: Seq<char>)
    requires
        solid(text),
        rest.len() == 0 || is_white(rest[0]),
    ensures
        word_length(text + rest) == text.len(),
    decreases text.len(),
{
    if text.len() == 0 {
        assert(text + rest =~= rest);
    } else {
        let whole = text + rest;
        assert(whole[0] == text[0]);
        assert(whole.drop_first() =~= text.drop_first() + rest);
        lemma_solid_length(text.drop_first(), rest);
    }
}

proof fn lemma_word_length(text: Seq<char>)
    ensures
        word_length(text) <= text.len(),
        solid(text.take(word_length(text) as int)),
        word_length(text) < text.len() ==> is_white(text[word_length(text) as int]),
    decreases text.len(),
{
    if text.len() > 0 && !is_white(text[0]) {
        let tail = text.drop_first();
        lemma_word_length(tail);
        let n = word_length(text) as int;
        assert forall|i: int| 0 <= i < n implies !is_white(#[trigger] text.take(n)[i]) by {
            if i > 0 {
                assert(tail.take(n - 1)[i - 1] == text.take(n)[i]);
            }
        }
    }
}

/// White space parts the words of a text: those before it come first, and those
/// behind it follow. A text without white space is one word.
pub proof fn law_words(a: Seq<char>, white: char, b: Seq<char>)
    ensures
        is_white(white) ==> words(a + seq![white] + b) == words(a) + words(b),
        a.len() > 0 && solid(a) ==> words(a) == seq![a],
        words(Seq::empty()) == Seq::<Seq<char>>::empty(),
    decreases a.len(),
{
    if a.len() > 0 && solid(a) {
        lemma_solid_length(a, Seq::empty());
        assert(a + Seq::<char>::empty() =~= a);
        assert(a.take(a.len() as int) =~= a);
        assert(a.skip(a.len() as int) =~= Seq::empty());
        assert(words(a.skip(a.len() as int)) =~= Seq::empty());
        assert(words(a) =~= seq![a]);
    }
    if is_white(white) {
        let whole = a + seq![white] + b;
        if a.len() == 0 {
            assert(whole[0] == white);
            assert(whole.drop_first() =~= b);
            assert(words(a) =~= Seq::empty());
            assert(words(whole) =~= words(a) + words(b));
        } else if is_white(a[0]) {
            assert(whole[0] == a[0]);
            assert(whole.drop_first() =~= a.drop_first() + seq![white] + b);
            law_words(a.drop_first(), white, b);
        } else {
            let n = word_length(a) as int;
            lemma_word_length(a);
            assert(n > 0);
            let word = a.take(n);
            let rest = a.skip(n) + seq![white] + b;
            assert(whole =~= word + rest);
            assert(rest[0] == if n < a.len() {
                a[n]
            } else {
                white
            });
            lemma_solid_length(word, rest);
            assert(whole[0] == a[0]);
            assert(whole.take(n) =~= word);
            assert(whole.skip(n) =~= rest);
            law_words(a.skip(n), white, b);
            assert(words(whole) =~= seq![word] + (words(a.skip(n)) + words(b)));
            assert(words(a) + words(b) =~= seq![word] + (words(a.skip(n)) + words(b)));
        }
    }
}

proof fn lemma_white_prefix(front: Seq<char>, rest: Seq<char>)
    requires
        all_white(front),
        rest.len() == 0 || !is_white(rest[0]),
    ensures
        white_prefix(front + rest) == front.len(),
    decreases front.len(),
{
    let whole = front + rest;
    if front.len() > 0 {
        assert(whole[0] == front[0]);
        assert(whole.drop_first() =~= front.drop_first() + rest);
        lemma_white_prefix(front.drop_first(), rest);
    } else {
        assert(whole =~= rest);
    }
}

proof fn lemma_trimmed_end(text: Seq<char>, back: Seq<char>)
    requires
        all_white(back),
        text.len() == 0 || !is_white(text.last()),
    ensures
        trimmed_end(text + back) == text,
    decreases back.len(),
{
    let whole = text + back;
    if back.len() > 0 {
        assert(whole.last() == back.last());
        assert(whole.drop_last() =~= text + back.drop_last());
        lemma_trimmed_end(text, back.drop_last());
    } else {
        assert(whole =~= text);
    }
}

/// A trimmed text has lost the white space at both ends, and nothing else.
pub proof fn law_trimmed(front: Seq<char>, text: Seq<char>, back: Seq<char>)
    requires
        all_white(front),
        all_white(back),
        text.len() > 0 ==> !is_white(text[0]) && !is_white(text.last()),
    ensures
        trimmed(front + text + back) == text,
{
    let whole = front + text + back;
    if text.len() == 0 {
        assert(whole =~= (front + back) + text);
        assert(all_white(front + back));
        lemma_white_prefix(front + back, text);
        assert(whole.skip(whole.len() as int) =~= text);
    } else {
        assert(whole =~= front + (text + back));
        assert((text + back)[0] == text[0]);
        lemma_white_prefix(front, text + back);
        assert(whole.skip(front.len() as int) =~= text + back);
        lemma_trimmed_end(text, back);
    }
}

/// A text is parted at the first of the character that parts it, and not at all
/// where that does not occur.
pub proof fn law_split_once(front: Seq<char>, wanted: char, back: Seq<char>)
    requires
        !front.contains(wanted),
    ensures
        split_once_at(front + seq![wanted] + back, wanted) == Some((front, back)),
        split_once_at(front, wanted) is None,
{
    let whole = front + seq![wanted] + back;
    lemma_first_position(front, wanted, back);
    assert(whole.take(front.len() as int) =~= front);
    assert(whole.skip(front.len() as int + 1) =~= back);
    lemma_no_position(front, wanted);
}

/// The last position of a character is behind everything that is followed by it.
pub proof fn law_last_position(front: Seq<char>, wanted: char, back: Seq<char>)
    requires
        !back.contains(wanted),
    ensures
        last_position(front + seq![wanted] + back, wanted) == front.len(),
        last_position(back, wanted) == -1,
    decreases back.len(),
{
    let whole = front + seq![wanted] + back;
    if back.len() > 0 {
        assert(back.contains(back.last()));
        assert(whole.last() == back.last());
        assert(whole.drop_last() =~= front + seq![wanted] + back.drop_last());
        assert forall|i: int| 0 <= i < back.drop_last().len() implies back.drop_last()[i]
            != wanted by {
            assert(back.contains(back[i]));
        }
        law_last_position(front, wanted, back.drop_last());
    } else {
        assert(whole.last() == wanted);
    }
}

/// Where two byte strings first differ, the second has the greater byte, or the
/// first has ended.
pub open spec fn parts_at(a: Seq<u8>, b: Seq<u8>, i: int) -> bool {
    &&& 0 <= i <= a.len()
    &&& i < b.len()
    &&& a.take(i) == b.take(i)
    &&& i == a.len() || a[i] < b[i]
}

proof fn lemma_bytes_before(a: Seq<u8>, b: Seq<u8>)
    ensures
        bytes_before(a, b) <==> exists|i: int| parts_at(a, b, i),
    decreases a.len(),
{
    if b.len() > 0 && a.len() > 0 && a[0] == b[0] {
        let x = a.drop_first();
        let y = b.drop_first();
        lemma_bytes_before(x, y);
        if exists|i: int| parts_at(a, b, i) {
            let i = choose|i: int| parts_at(a, b, i);
            assert(i > 0);
            assert forall|k: int| 0 <= k < i - 1 implies x[k] == y[k] by {
                assert(a.take(i)[k + 1] == b.take(i)[k + 1]);
            }
            assert(x.take(i - 1) =~= y.take(i - 1));
            assert(parts_at(x, y, i - 1));
        }
        if exists|i: int| parts_at(x, y, i) {
            let i = choose|i: int| parts_at(x, y, i);
            assert forall|k: int| 0 <= k < i + 1 implies a[k] == b[k] by {
                if k > 0 {
                    assert(x.take(i)[k - 1] == y.take(i)[k - 1]);
                }
            }
            assert(a.take(i + 1) =~= b.take(i + 1));
            assert(parts_at(a, b, i + 1));
        }
    } else if b.len() > 0 {
        assert(a.take(0) =~= b.take(0));
        if bytes_before(a, b) {
            assert(parts_at(a, b, 0));
        }
        if exists|i: int| parts_at(a, b, i) {
            let i = choose|i: int| parts_at(a, b, i);
            if i > 0 {
                assert(a.take(i)[0] == b.take(i)[0]);
            }
        }
    }
}

/// Texts are ordered by the first byte in which they differ, and a text comes
/// before those that it begins.
pub proof fn law_text_before(a: Seq<char>, b: Seq<char>)
    ensures
        text_before(a, b) <==> exists|i: int| parts_at(encode_utf8(a), encode_utf8(b), i),
        in_order(a, b) == (a, b) || in_order(a, b) == (b, a),
        (exists|i: int| parts_at(encode_utf8(a), encode_utf8(b), i)) ==> in_order(a, b) == (a, b)
            && in_order(b, a) == (a, b),
{
    lemma_bytes_before(encode_utf8(a), encode_utf8(b));
    lemma_bytes_before(encode_utf8(b), encode_utf8(a));
    crate::text::law_text_order(a, b);
}

/// The line of a place is one more than the number of newlines before it.
pub proof fn law_line_of(bytes: Seq<u8>, i: int)
    requires
        0 <= i <= bytes.len(),
    ensures
        newlines_before(bytes, i) == newlines_in(bytes.take(i)),
        newlines_in(bytes.take(i)) < u32::MAX ==> line_at(bytes, i) == newlines_in(bytes.take(i))
            + 1,
    decreases i,
{
    reveal(Seq::filter);
    if i > 0 {
        law_line_of(bytes, i - 1);
        assert(bytes.take(i).drop_last() =~= bytes.take(i - 1));
        assert(bytes.take(i).last() == bytes[i - 1]);
    }
}

/// The blocks of a chunk stand in the document one to a line, each with its
/// classes in their order.
pub proof fn law_document(a: Seq<GroupView>, b: Seq<GroupView>, group: GroupView)
    ensures
        document_of(seq![group]) == "<div class=\""@ + joined(group.classes, " "@) + "\"></div>"@,
        a.len() > 0 && b.len() > 0 ==> document_of(a + b) == document_of(a) + "\n"@ + document_of(b),
{
    let line = crate::document::block_line(group);
    assert(crate::document::block_lines(seq![group]) =~= seq![line]);
    assert(crate::document::block_lines(a + b) =~= crate::document::block_lines(a)
        + crate::document::block_lines(b));
    law_joined(
        crate::document::block_lines(a),
        crate::document::block_lines(b),
        line,
        "\n"@,
    );
}

/// What is found is found of each diagnostic for itself, where it begins and ends:
/// a suggestion by its code, and of the others a failure where the severity is that
/// of a warning, that of an error, or none.
pub proof fn law_findings(diagnostics: Seq<DiagnosticView>, i: int)
    requires
        0 <= i < diagnostics.len(),
    ensures
        ({
            let found = classified_all(diagnostics);
            let diagnostic = diagnostics[i];
            &&& found.len() == diagnostics.len()
            &&& found[i].line == diagnostic.range.start.line
            &&& found[i].start == diagnostic.range.start.character
            &&& found[i].end == diagnostic.range.end.character
            &&& found[i].message == diagnostic.message
            &&& diagnostic.code == Some(CodeView::Name("suggestCanonicalClasses"@)) ==> found[i].kind
                == KindView::Canonical(replacement_part(diagnostic.message))
            &&& diagnostic.code != Some(CodeView::Name("suggestCanonicalClasses"@)) && (
            diagnostic.severity == None::<i32> || diagnostic.severity == Some(1i32)
                || diagnostic.severity == Some(2i32)) ==> found[i].kind == KindView::Fatal(
                conflict_in(diagnostic.message),
            )
            &&& diagnostic.code != Some(CodeView::Name("suggestCanonicalClasses"@)) && (
            diagnostic.severity == Some(3i32) || diagnostic.severity == Some(4i32))
                ==> found[i].kind is Minor
        }),
{
}

/// One position is not behind another.
pub open spec fn not_behind(a: Position, b: Position) -> bool {
    a.line < b.line || (a.line == b.line && a.character <= b.character)
}

proof fn lemma_arranged_multiset<T>(items: Seq<T>, keys: Seq<int>)
    requires
        items.len() == keys.len(),
    ensures
        arranged(items, ascending(keys)).to_multiset() == items.to_multiset(),
    decreases keys.len(),
{
    if keys.len() > 0 {
        let fewer = items.drop_last();
        let before = ascending(keys.drop_last());
        lemma_arranged_multiset(fewer, keys.drop_last());
        law_ascending(keys.drop_last());
        let place = place_for(before, keys, keys.last());
        lemma_place(before, keys, keys.last());
        assert(arranged(items, ascending(keys)) =~= arranged(fewer, before).insert(
            place,
            items.last(),
        ));
        vstd::seq_lib::to_multiset_insert(arranged(fewer, before), place, items.last());
        vstd::seq_lib::to_multiset_build(fewer, items.last());
        assert(fewer.push(items.last()) =~= items);
    } else {
        assert(arranged(items, ascending(keys)) =~= items);
    }
}

proof fn lemma_place(order: Seq<int>, keys: Seq<int>, key: int)
    ensures
        0 <= place_for(order, keys, key) <= order.len(),
    decreases order.len(),
{
    if order.len() > 0 {
        lemma_place(order.drop_last(), keys, key);
    }
}

/// The diagnostics by position are the diagnostics that there are, each as often as
/// it is there, and none stands before one that begins before it.
pub proof fn law_by_position(diagnostics: Seq<DiagnosticView>)
    ensures
        by_position(diagnostics).to_multiset() == diagnostics.to_multiset(),
        by_position(diagnostics).len() == diagnostics.len(),
        forall|a: int, b: int|
            0 <= a < b < diagnostics.len() ==> not_behind(
                (#[trigger] by_position(diagnostics)[a]).range.start,
                (#[trigger] by_position(diagnostics)[b]).range.start,
            ),
{
    let keys = diagnostics.map_values(|d: DiagnosticView| d.range.start.rank());
    law_ascending(keys);
    lemma_arranged_multiset(diagnostics, keys);
    let order = ascending(keys);
    assert forall|a: int, b: int| 0 <= a < b < diagnostics.len() implies not_behind(
        (#[trigger] by_position(diagnostics)[a]).range.start,
        (#[trigger] by_position(diagnostics)[b]).range.start,
    ) by {
        assert(ranks_before(keys, order[a], order[b]));
        let one = diagnostics[order[a]].range.start;
        let other = diagnostics[order[b]].range.start;
        assert(keys[order[a]] == one.rank() && keys[order[b]] == other.rank());
        crate::protocol::law_rank_orders_positions(one, other);
        crate::protocol::law_rank_orders_positions(other, one);
    }
}

proof fn lemma_lines_add_up(path: Seq<char>, a: Seq<DiagnosticView>, b: Seq<DiagnosticView>)
    ensures
        diagnostic_lines(path, a + b) == diagnostic_lines(path, a) + diagnostic_lines(path, b),
    decreases b.len(),
{
    if b.len() == 0 {
        assert(a + b =~= a);
        assert(diagnostic_lines(path, a) + diagnostic_lines(path, b) =~= diagnostic_lines(path, a));
    } else {
        assert((a + b).drop_last() =~= a + b.drop_last());
        lemma_lines_add_up(path, a, b.drop_last());
        assert(diagnostic_lines(path, a + b) =~= diagnostic_lines(path, a) + diagnostic_lines(
            path,
            b,
        ));
    }
}

/// A report on sources is the reports on each of them, one behind the other.
pub proof fn law_reports_add_up(a: Seq<FileView>, b: Seq<FileView>)
    ensures
        rendered(a + b) == rendered(a) + rendered(b),
    decreases b.len(),
{
    if b.len() == 0 {
        assert(a + b =~= a);
        assert(rendered(a) + rendered(b) =~= rendered(a));
    } else {
        assert((a + b).drop_last() =~= a + b.drop_last());
        law_reports_add_up(a, b.drop_last());
        assert(rendered(a + b) =~= rendered(a) + rendered(b));
    }
}

proof fn lemma_one_source(file: FileView)
    ensures
        rendered(seq![file]) == diagnostic_lines(file.path, file.diagnostics),
{
    assert(seq![file].drop_last() =~= Seq::empty());
    assert(rendered(seq![file].drop_last()) =~= Seq::empty());
    assert(rendered(seq![file]) =~= diagnostic_lines(file.path, file.diagnostics));
}

/// A report on a source has one line for each diagnostic, in their order, with the
/// place counted from one, the rule where there is one, and the message.
pub proof fn law_one_line_each(
    path: Seq<char>,
    a: Seq<DiagnosticView>,
    b: Seq<DiagnosticView>,
    diagnostic: DiagnosticView,
    name: Seq<char>,
    number: i32,
)
    ensures
        rendered(seq![FileView { path, diagnostics: Seq::empty() }]) == Seq::<char>::empty(),
        rendered(seq![FileView { path, diagnostics: a + b }]) == rendered(
            seq![FileView { path, diagnostics: a }],
        ) + rendered(seq![FileView { path, diagnostics: b }]),
        ({
            let line = rendered(seq![FileView { path, diagnostics: seq![diagnostic] }]);
            let place = path + ":"@ + decimal((diagnostic.range.start.line + 1) as nat) + ":"@
                + decimal((diagnostic.range.start.character + 1) as nat) + "  "@;
            &&& diagnostic.code is None ==> line == place + diagnostic.message + "\n"@
            &&& diagnostic.code == Some(CodeView::Name(name)) ==> line == place + (name + "  "@)
                + diagnostic.message + "\n"@
            &&& diagnostic.code == Some(CodeView::Number(number)) && number >= 0 ==> line == place
                + (decimal(number as nat) + "  "@) + diagnostic.message + "\n"@
            &&& diagnostic.code == Some(CodeView::Number(number)) && number < 0 ==> line == place + (
            "-"@ + decimal((0 - number) as nat) + "  "@) + diagnostic.message + "\n"@
        }),
{
    lemma_one_source(FileView { path, diagnostics: Seq::empty() });
    lemma_one_source(FileView { path, diagnostics: a + b });
    lemma_one_source(FileView { path, diagnostics: a });
    lemma_one_source(FileView { path, diagnostics: b });
    lemma_one_source(FileView { path, diagnostics: seq![diagnostic] });
    lemma_lines_add_up(path, a, b);
    let one = seq![diagnostic];
    assert(one.drop_last() =~= Seq::empty());
    assert(diagnostic_lines(path, one.drop_last()) =~= Seq::empty());
    let line = crate::report::diagnostic_line(path, diagnostic);
    assert(diagnostic_lines(path, one) =~= line);
    let place = path + ":"@ + decimal((diagnostic.range.start.line + 1) as nat) + ":"@ + decimal(
        (diagnostic.range.start.character + 1) as nat,
    ) + "  "@;
    if diagnostic.code is None {
        assert(line =~= place + diagnostic.message + "\n"@);
    }
}

/// The failures in a source are its diagnostics of the severity of a warning, of an
/// error, or of none, each counted.
pub proof fn law_fatal_count(file: FileView)
    requires
        forall|i: int|
            0 <= i < file.diagnostics.len() ==> match (
            #[trigger] file.diagnostics[i]).severity {
                Some(severity) => 1 <= severity <= 4,
                None => true,
            },
    ensures
        fatal_total(seq![file]) == file.diagnostics.filter(
            |d: DiagnosticView|
                d.severity == None::<i32> || d.severity == Some(1i32) || d.severity == Some(2i32),
        ).len(),
{
    assert(seq![file].drop_last() =~= Seq::empty());
    assert(fatal_total(seq![file].drop_last()) == 0);
    lemma_fatal_in(file.diagnostics);
}

proof fn lemma_fatal_in(diagnostics: Seq<DiagnosticView>)
    requires
        forall|i: int|
            0 <= i < diagnostics.len() ==> match (#[trigger] diagnostics[i]).severity {
                Some(severity) => 1 <= severity <= 4,
                None => true,
            },
    ensures
        fatal_in(diagnostics) == diagnostics.filter(
            |d: DiagnosticView|
                d.severity == None::<i32> || d.severity == Some(1i32) || d.severity == Some(2i32),
        ).len(),
    decreases diagnostics.len(),
{
    reveal(Seq::filter);
    if diagnostics.len() > 0 {
        assert(diagnostics[diagnostics.len() - 1] == diagnostics.last());
        assert forall|i: int| 0 <= i < diagnostics.drop_last().len() implies match (
        #[trigger] diagnostics.drop_last()[i]).severity {
            Some(severity) => 1 <= severity <= 4,
            None => true,
        } by {
            assert(diagnostics.drop_last()[i] == diagnostics[i]);
        }
        lemma_fatal_in(diagnostics.drop_last());
    }
}

} // verus!
