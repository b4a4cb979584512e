//! Applying edits to a document: each replaces a range that is given in the
//! coordinates of the text as it was.
use crate::order::{
    arranged, ascending, ascending_order, index_values, key_values, law_ascending, ranks_before,
};
use crate::protocol::{Position, Range, TextEdit};
use crate::scan::lemma_boundary_in_bounds;
use crate::text::lemma_encode_concat;
use vstd::prelude::*;
use vstd::string::*;
use vstd::utf8::*;

verus! {

/// A replacement of a byte range of a text.
#[derive(Debug)]
pub struct Splice {
    pub start: usize,
    pub end: usize,
    pub text: String,
}

pub struct SpliceView {
    pub start: int,
    pub end: int,
    pub text: Seq<char>,
}

impl View for Splice {
    type V = SpliceView;

    open spec fn view(&self) -> SpliceView {
        SpliceView { start: self.start as int, end: self.end as int, text: self.text@ }
    }
}

pub open spec fn splice_views(list: Seq<Splice>) -> Seq<SpliceView> {
    list.map_values(|s: Splice| s@)
}

/// A range of a text that can be replaced: both ends are character boundaries
/// of it, in order.
pub open spec fn replaceable(bytes: Seq<u8>, start: int, end: int) -> bool {
    start <= end && is_char_boundary(bytes, start) && is_char_boundary(bytes, end)
}

/// The text after one replacement, if its range can be replaced.
pub open spec fn spliced(bytes: Seq<u8>, splice: SpliceView) -> Option<Seq<u8>> {
    if replaceable(bytes, splice.start, splice.end) {
        Some(bytes.take(splice.start) + encode_utf8(splice.text) + bytes.skip(splice.end))
    } else {
        None
    }
}

/// The text after some replacements, one after the other, if the range of each
/// can be replaced when its turn comes.
pub open spec fn spliced_all(bytes: Seq<u8>, splices: Seq<SpliceView>) -> Option<Seq<u8>>
    decreases splices.len(),
{
    if splices.len() == 0 {
        Some(bytes)
    } else {
        match spliced(bytes, splices[0]) {
            Some(after) => spliced_all(after, splices.drop_first()),
            None => None,
        }
    }
}

/// The UTF-8 encoding of a text, if there is one.
pub open spec fn encoded(text: Option<String>) -> Option<Seq<u8>> {
    match text {
        Some(s) => Some(encode_utf8(s@)),
        None => None,
    }
}

/// Replace a byte range of a text.
pub fn splice_text(text: &str, splice: &Splice) -> (after: Option<String>)
    ensures
        encoded(after) == spliced(text.spec_bytes(), splice@),
{
    proof {
        encode_utf8_valid_utf8(text@);
    }
    if splice.start > splice.end || !text.is_char_boundary(splice.start) || !text.is_char_boundary(
        splice.end,
    ) {
        return None;
    }
    let ghost bytes = text.spec_bytes();
    proof {
        lemma_boundary_in_bounds(bytes, splice.start as int);
        lemma_boundary_in_bounds(bytes, splice.end as int);
    }
    let (head, _) = text.split_at(splice.start);
    let (_, tail) = text.split_at(splice.end);
    let mut after = head.to_string();
    after.append(splice.text.as_str());
    proof {
        lemma_encode_concat(head@, splice.text@);
    }
    let ghost front = after@;
    after.append(tail);
    proof {
        lemma_encode_concat(front, tail@);
        assert(bytes.take(splice.start as int) =~= bytes.subrange(0, splice.start as int));
        assert(bytes.skip(splice.end as int) =~= bytes.subrange(
            splice.end as int,
            bytes.len() as int,
        ));
    }
    Some(after)
}

/// Replace byte ranges of a text, one after the other, in the order that some
/// indices give.
fn splice_in_order(text: &str, splices: &Vec<Splice>, order: &Vec<usize>) -> (after: Option<String>)
    requires
        forall|a: int| 0 <= a < order@.len() ==> (#[trigger] order@[a]) < splices@.len(),
    ensures
        encoded(after) == spliced_all(
            text.spec_bytes(),
            arranged(splice_views(splices@), index_values(order@)),
        ),
{
    let ghost list = arranged(splice_views(splices@), index_values(order@));
    let mut buffer = text.to_string();
    let mut i: usize = 0;
    assert(list.skip(0) =~= list);
    while i < order.len()
        invariant
            i <= order@.len(),
            forall|a: int| 0 <= a < order@.len() ==> (#[trigger] order@[a]) < splices@.len(),
            list == arranged(splice_views(splices@), index_values(order@)),
            spliced_all(text.spec_bytes(), list) == spliced_all(
                encode_utf8(buffer@),
                list.skip(i as int),
            ),
        decreases order@.len() - i,
    {
        assert(list.skip(i as int)[0] == splices@[order@[i as int] as int]@);
        assert(list.skip(i as int).drop_first() =~= list.skip(i + 1));
        match splice_text(buffer.as_str(), &splices[order[i]]) {
            Some(after) => {
                buffer = after;
            },
            None => {
                return None;
            },
        }
        i += 1;
    }
    assert(list.skip(i as int).len() == 0);
    Some(buffer)
}

/// A number that falls as a start grows.
pub open spec fn falling(start: int) -> int {
    u64::MAX - start
}

/// The replacements from the last start to the first, those with equal starts
/// in the order in which they are given.
pub open spec fn last_first(splices: Seq<SpliceView>) -> Seq<SpliceView> {
    arranged(splices, ascending(splices.map_values(|s: SpliceView| falling(s.start))))
}

/// Replace byte ranges of a text, the last one first, so that none shifts the
/// offsets of another. There is no result where a range cannot be replaced when
/// its turn comes.
pub fn apply_splices(text: &str, splices: &Vec<Splice>) -> (after: Option<String>)
    ensures
        encoded(after) == spliced_all(text.spec_bytes(), last_first(splice_views(splices@))),
{
    let mut keys: Vec<u64> = Vec::new();
    let mut i: usize = 0;
    while i < splices.len()
        invariant
            i <= splices@.len(),
            keys@.len() == i,
            forall|j: int| 0 <= j < i ==> #[trigger] keys@[j] == falling(splices@[j].start as int),
        decreases splices@.len() - i,
    {
        keys.push(u64::MAX - splices[i].start as u64);
        i += 1;
    }
    assert(key_values(keys@) =~= splice_views(splices@).map_values(
        |s: SpliceView| falling(s.start),
    ));
    let order = ascending_order(&keys);
    splice_in_order(text, splices, &order)
}

/// The replacements are listed from the last to the first and do not overlap,
/// and the range of each can be replaced in the text.
pub open spec fn apart(bytes: Seq<u8>, splices: Seq<SpliceView>) -> bool {
    &&& forall|i: int|
        0 <= i < splices.len() ==> replaceable(
            bytes,
            (#[trigger] splices[i]).start,
            splices[i].end,
        )
    &&& forall|i: int, j: int|
        0 <= i < j < splices.len() ==> (#[trigger] splices[j]).end <= (#[trigger] splices[i]).start
}

/// The first `upto` bytes of a text with each range replaced, all ranges in the
/// coordinates of that text. What lies between the ranges is kept.
pub open spec fn rebuilt(bytes: Seq<u8>, splices: Seq<SpliceView>, upto: int) -> Seq<u8>
    decreases splices.len(),
{
    if splices.len() == 0 {
        bytes.take(upto)
    } else {
        rebuilt(bytes, splices.drop_first(), splices[0].start) + encode_utf8(splices[0].text)
            + bytes.subrange(splices[0].end, upto)
    }
}

/// A position within the kept front of a text is a boundary of the whole.
proof fn lemma_boundary_kept(bytes: Seq<u8>, u: int, tail: Seq<u8>, p: int)
    requires
        valid_utf8(bytes),
        valid_utf8(tail),
        is_char_boundary(bytes, u),
        is_char_boundary(bytes, p),
        p <= u,
    ensures
        valid_utf8(bytes.take(u) + tail),
        is_char_boundary(bytes.take(u) + tail, p),
{
    lemma_boundary_in_bounds(bytes, u);
    lemma_boundary_in_bounds(bytes, p);
    let front = bytes.take(u);
    let whole = front + tail;
    assert(front =~= bytes.subrange(0, u));
    valid_utf8_split(bytes, u);
    valid_utf8_concat(front, tail);
    is_char_boundary_start_end_of_seq(whole);
    if p < u {
        assert(whole[p] == bytes[p]);
        is_char_boundary_iff_not_is_continuation_byte(bytes, p);
        is_char_boundary_iff_not_is_continuation_byte(whole, p);
    } else if tail.len() > 0 {
        assert(whole[p] == tail[0]);
        is_char_boundary_start_end_of_seq(tail);
        is_char_boundary_iff_not_is_continuation_byte(tail, 0);
        is_char_boundary_iff_not_is_continuation_byte(whole, p);
    } else {
        assert(p == whole.len());
    }
}

proof fn lemma_apart_splices(bytes: Seq<u8>, splices: Seq<SpliceView>, u: int, tail: Seq<u8>)
    requires
        valid_utf8(bytes),
        valid_utf8(tail),
        is_char_boundary(bytes, u),
        apart(bytes, splices),
        splices.len() > 0 ==> splices[0].end <= u,
    ensures
        spliced_all(bytes.take(u) + tail, splices) == Some(rebuilt(bytes, splices, u) + tail),
    decreases splices.len(),
{
    let whole = bytes.take(u) + tail;
    if splices.len() > 0 {
        let s = splices[0];
        assert(replaceable(bytes, s.start, s.end));
        lemma_boundary_in_bounds(bytes, u);
        lemma_boundary_in_bounds(bytes, s.start);
        lemma_boundary_in_bounds(bytes, s.end);
        lemma_boundary_kept(bytes, u, tail, s.start);
        lemma_boundary_kept(bytes, u, tail, s.end);
        let new_tail = encode_utf8(s.text) + whole.skip(s.end);
        assert(spliced(whole, s) == Some(
            whole.take(s.start) + encode_utf8(s.text) + whole.skip(s.end),
        ));
        assert(whole.take(s.start) + encode_utf8(s.text) + whole.skip(s.end) =~= bytes.take(s.start)
            + new_tail);
        encode_utf8_valid_utf8(s.text);
        assert(whole.skip(s.end) =~= whole.subrange(s.end, whole.len() as int));
        valid_utf8_split(whole, s.end);
        valid_utf8_concat(encode_utf8(s.text), whole.skip(s.end));
        let rest = splices.drop_first();
        assert forall|i: int| 0 <= i < rest.len() implies replaceable(
            bytes,
            (#[trigger] rest[i]).start,
            rest[i].end,
        ) by {
            assert(rest[i] == splices[i + 1]);
        }
        assert forall|i: int, j: int| 0 <= i < j < rest.len() implies (#[trigger] rest[j]).end <= (
        #[trigger] rest[i]).start by {
            assert(rest[i] == splices[i + 1] && rest[j] == splices[j + 1]);
        }
        if rest.len() > 0 {
            assert(splices[1].end <= splices[0].start);
        }
        lemma_apart_splices(bytes, rest, s.start, new_tail);
        assert(rebuilt(bytes, rest, s.start) + new_tail =~= rebuilt(bytes, splices, u) + tail);
    }
}

/// Replacements that are listed from the last to the first rebuild the text.
pub proof fn lemma_apart_all(text: Seq<char>, list: Seq<SpliceView>)
    requires
        apart(encode_utf8(text), list),
    ensures
        spliced_all(encode_utf8(text), list) == Some(
            rebuilt(encode_utf8(text), list, encode_utf8(text).len() as int),
        ),
{
    let bytes = encode_utf8(text);
    encode_utf8_valid_utf8(text);
    is_char_boundary_start_end_of_seq(bytes);
    let tail = Seq::<u8>::empty();
    if list.len() > 0 {
        assert(replaceable(bytes, list[0].start, list[0].end));
        lemma_boundary_in_bounds(bytes, list[0].end);
    }
    lemma_apart_splices(bytes, list, bytes.len() as int, tail);
    assert(bytes.take(bytes.len() as int) + tail =~= bytes);
    assert(rebuilt(bytes, list, bytes.len() as int) + tail =~= rebuilt(
        bytes,
        list,
        bytes.len() as int,
    ));
}

/// Replacements that do not overlap act as if they were made all at once: none
/// shifts another, and what lies between their ranges is kept byte by byte.
pub proof fn law_apart_replacements_do_not_shift(text: Seq<char>, splices: Seq<SpliceView>)
    requires
        apart(encode_utf8(text), last_first(splices)),
    ensures
        spliced_all(encode_utf8(text), last_first(splices)) == Some(
            rebuilt(encode_utf8(text), last_first(splices), encode_utf8(text).len() as int),
        ),
{
    lemma_apart_all(text, last_first(splices));
}

/// The replacements are listed from the first to the last and do not overlap,
/// and the range of each can be replaced in the text.
pub open spec fn one_after_another(bytes: Seq<u8>, splices: Seq<SpliceView>) -> bool {
    &&& forall|i: int|
        0 <= i < splices.len() ==> replaceable(
            bytes,
            (#[trigger] splices[i]).start,
            splices[i].end,
        )
    &&& forall|i: int, j: int|
        0 <= i < j < splices.len() ==> (#[trigger] splices[i]).start < (#[trigger] splices[j]).start
            && splices[i].end <= splices[j].start
}

/// Replacements that are listed from the first to the last are made from the
/// last to the first, so that each one finds its range where the text had it.
pub proof fn law_one_after_another(text: Seq<char>, splices: Seq<SpliceView>)
    requires
        one_after_another(encode_utf8(text), splices),
    ensures
        apart(encode_utf8(text), last_first(splices)),
        spliced_all(encode_utf8(text), last_first(splices)) == Some(
            rebuilt(encode_utf8(text), last_first(splices), encode_utf8(text).len() as int),
        ),
{
    let bytes = encode_utf8(text);
    let keys = splices.map_values(|s: SpliceView| falling(s.start));
    let order = ascending(keys);
    let list = last_first(splices);
    law_ascending(keys);
    assert forall|i: int| 0 <= i < list.len() implies replaceable(
        bytes,
        (#[trigger] list[i]).start,
        list[i].end,
    ) by {
        assert(0 <= order[i] < keys.len());
        assert(list[i] == splices[order[i]]);
    }
    assert forall|i: int, j: int| 0 <= i < j < list.len() implies (#[trigger] list[j]).end <= (
    #[trigger] list[i]).start by {
        let x = order[i];
        let y = order[j];
        assert(0 <= x < keys.len() && 0 <= y < keys.len());
        assert(ranks_before(keys, x, y));
        assert(list[i] == splices[x] && list[j] == splices[y]);
        if x < y {
            assert(splices[x].start < splices[y].start);
        }
    }
    law_apart_replacements_do_not_shift(text, splices);
}

/// Edits that do not overlap act as if they were made all at once, in the
/// coordinates of the document as it was, and leave everything else alone.
pub proof fn law_apart_edits_do_not_shift(source: Seq<char>, edits: Seq<TextEditView>)
    requires
        edit_splices(line_starts(encode_utf8(source)), edits) is Some,
        apart(
            encode_utf8(source),
            arranged(
                edit_splices(line_starts(encode_utf8(source)), edits)->0,
                edit_order(edits),
            ),
        ),
    ensures
        edited(encode_utf8(source), edits) == Some(
            rebuilt(
                encode_utf8(source),
                arranged(
                    edit_splices(line_starts(encode_utf8(source)), edits)->0,
                    edit_order(edits),
                ),
                encode_utf8(source).len() as int,
            ),
        ),
{
    lemma_apart_all(
        source,
        arranged(edit_splices(line_starts(encode_utf8(source)), edits)->0, edit_order(edits)),
    );
}

/// The text of each replacement stands in its range already.
pub open spec fn made_already(bytes: Seq<u8>, splices: Seq<SpliceView>) -> bool {
    forall|i: int|
        0 <= i < splices.len() ==> replaceable(
            bytes,
            (#[trigger] splices[i]).start,
            splices[i].end,
        ) && bytes.subrange(splices[i].start, splices[i].end) == encode_utf8(splices[i].text)
}

proof fn lemma_made_already(bytes: Seq<u8>, splices: Seq<SpliceView>)
    requires
        valid_utf8(bytes),
        made_already(bytes, splices),
    ensures
        spliced_all(bytes, splices) == Some(bytes),
    decreases splices.len(),
{
    if splices.len() > 0 {
        let s = splices[0];
        let rest = splices.drop_first();
        assert(replaceable(bytes, s.start, s.end));
        lemma_boundary_in_bounds(bytes, s.start);
        lemma_boundary_in_bounds(bytes, s.end);
        assert(bytes.take(s.start) + bytes.subrange(s.start, s.end) + bytes.skip(s.end) =~= bytes);
        assert forall|i: int| 0 <= i < rest.len() implies replaceable(
            bytes,
            (#[trigger] rest[i]).start,
            rest[i].end,
        ) && bytes.subrange(rest[i].start, rest[i].end) == encode_utf8(rest[i].text) by {
            assert(rest[i] == splices[i + 1]);
        }
        lemma_made_already(bytes, rest);
    }
}

/// Each edit is one replacement.
proof fn lemma_edit_splices_length(starts: Seq<int>, edits: Seq<TextEditView>)
    requires
        edit_splices(starts, edits) is Some,
    ensures
        (edit_splices(starts, edits)->0).len() == edits.len(),
    decreases edits.len(),
{
    if edits.len() > 0 {
        lemma_edit_splices_length(starts, edits.drop_last());
    }
}

/// Edits whose text stands in their ranges already change nothing: a document
/// that shows them all as made stays as it is when they are made again.
pub proof fn law_made_edits_change_nothing(source: Seq<char>, edits: Seq<TextEditView>)
    requires
        edit_splices(line_starts(encode_utf8(source)), edits) is Some,
        made_already(
            encode_utf8(source),
            edit_splices(line_starts(encode_utf8(source)), edits)->0,
        ),
    ensures
        edited(encode_utf8(source), edits) == Some(encode_utf8(source)),
{
    let bytes = encode_utf8(source);
    let starts = line_starts(bytes);
    let splices = edit_splices(starts, edits)->0;
    let keys = edits.map_values(|e: TextEditView| falling(e.range.start.rank()));
    let order = edit_order(edits);
    let list = arranged(splices, order);
    encode_utf8_valid_utf8(source);
    law_ascending(keys);
    lemma_edit_splices_length(starts, edits);
    assert forall|i: int| 0 <= i < list.len() implies replaceable(
        bytes,
        (#[trigger] list[i]).start,
        list[i].end,
    ) && bytes.subrange(list[i].start, list[i].end) == encode_utf8(list[i].text) by {
        assert(0 <= order[i] < keys.len());
        assert(list[i] == splices[order[i]]);
    }
    lemma_made_already(bytes, list);
}

/// The replacements, last first, are the given ones, with starts that do not
/// grow.
pub proof fn law_last_first(splices: Seq<SpliceView>)
    ensures
        last_first(splices).len() == splices.len(),
        forall|i: int|
            0 <= i < splices.len() ==> splices.contains(#[trigger] last_first(splices)[i]),
        forall|i: int| 0 <= i < splices.len() ==> last_first(splices).contains(#[trigger] splices[i]),
        forall|i: int, j: int|
            0 <= i < j < splices.len() ==> (#[trigger] last_first(splices)[j]).start <= (
            #[trigger] last_first(splices)[i]).start,
{
    let keys = splices.map_values(|s: SpliceView| falling(s.start));
    let order = ascending(keys);
    let list = last_first(splices);
    law_ascending(keys);
    assert forall|i: int| 0 <= i < splices.len() implies splices.contains(#[trigger] list[i]) by {
        assert(0 <= order[i] < keys.len());
        assert(list[i] == splices[order[i]]);
    }
    assert forall|i: int| 0 <= i < splices.len() implies list.contains(#[trigger] splices[i]) by {
        assert(order.contains(i));
        let a = choose|a: int| 0 <= a < order.len() && order[a] == i;
        assert(list[a] == splices[i]);
    }
    assert forall|i: int, j: int| 0 <= i < j < splices.len() implies (#[trigger] list[j]).start <= (
    #[trigger] list[i]).start by {
        assert(0 <= order[i] < keys.len() && 0 <= order[j] < keys.len());
        assert(keys[order[i]] <= keys[order[j]]);
    }
}

/// The offsets at which the lines of a text start, as far as its first `i`
/// bytes show.
pub open spec fn line_starts_upto(bytes: Seq<u8>, i: int) -> Seq<int>
    decreases i,
{
    if i <= 0 {
        seq![0int]
    } else if bytes[i - 1] == 0x0a {
        line_starts_upto(bytes, i - 1).push(i)
    } else {
        line_starts_upto(bytes, i - 1)
    }
}

/// The offsets at which the lines of a text start: its beginning, and what
/// follows each newline.
pub open spec fn line_starts(bytes: Seq<u8>) -> Seq<int> {
    line_starts_upto(bytes, bytes.len() as int)
}

pub fn line_start_offsets(source: &str) -> (offsets: Vec<usize>)
    ensures
        index_values(offsets@) == line_starts(source.spec_bytes()),
{
    let bytes = source.as_bytes();
    let mut offsets: Vec<usize> = Vec::new();
    offsets.push(0);
    let mut i: usize = 0;
    assert(index_values(offsets@) =~= seq![0int]);
    while i < bytes.len()
        invariant
            bytes@ == source.spec_bytes(),
            i <= bytes@.len(),
            index_values(offsets@) == line_starts_upto(bytes@, i as int),
        decreases bytes@.len() - i,
    {
        let ghost before = offsets@;
        if bytes[i] == 0x0a {
            offsets.push(i + 1);
            assert(index_values(offsets@) =~= index_values(before).push(i + 1));
        }
        i += 1;
    }
    offsets
}

/// The byte offset of a position. Columns count bytes: they are exact where the
/// line holds only ASCII up to them.
pub open spec fn offset_at(starts: Seq<int>, position: Position) -> Option<int> {
    if position.line < starts.len() && starts[position.line as int] + position.character
        <= usize::MAX {
        Some(starts[position.line as int] + position.character)
    } else {
        None
    }
}

pub fn offset_of(line_starts: &Vec<usize>, line: u32, character: u32) -> (offset: usize)
    requires
        offset_at(index_values(line_starts@), Position { line, character }) is Some,
    ensures
        offset_at(index_values(line_starts@), Position { line, character }) == Some(offset as int),
{
    assert(index_values(line_starts@)[line as int] == line_starts@[line as int]);
    line_starts[line as usize] + character as usize
}

pub struct TextEditView {
    pub range: Range,
    pub new_text: Seq<char>,
}

impl View for TextEdit {
    type V = TextEditView;

    open spec fn view(&self) -> TextEditView {
        TextEditView { range: self.range, new_text: self.new_text@ }
    }
}

pub open spec fn edit_views(list: Seq<TextEdit>) -> Seq<TextEditView> {
    list.map_values(|e: TextEdit| e@)
}

/// An edit as a replacement of a byte range, if the document has its lines.
pub open spec fn edit_splice(starts: Seq<int>, edit: TextEditView) -> Option<SpliceView> {
    match (offset_at(starts, edit.range.start), offset_at(starts, edit.range.end)) {
        (Some(start), Some(end)) => Some(SpliceView { start, end, text: edit.new_text }),
        _ => None,
    }
}

/// Some edits as replacements, if the document has the lines of all of them.
pub open spec fn edit_splices(starts: Seq<int>, edits: Seq<TextEditView>) -> Option<Seq<SpliceView>>
    decreases edits.len(),
{
    if edits.len() == 0 {
        Some(Seq::empty())
    } else {
        match (edit_splices(starts, edits.drop_last()), edit_splice(starts, edits.last())) {
            (Some(before), Some(splice)) => Some(before.push(splice)),
            _ => None,
        }
    }
}

/// The edits by descending start position, those with equal starts in the order
/// in which they are given.
pub open spec fn edit_order(edits: Seq<TextEditView>) -> Seq<int> {
    ascending(edits.map_values(|e: TextEditView| falling(e.range.start.rank())))
}

/// The document after its edits, as bytes; nothing, where an edit names a line
/// that the document does not have, or a range that cannot be replaced when its
/// turn comes.
pub open spec fn edited(source: Seq<u8>, edits: Seq<TextEditView>) -> Option<Seq<u8>> {
    match edit_splices(line_starts(source), edits) {
        Some(splices) => spliced_all(source, arranged(splices, edit_order(edits))),
        None => None,
    }
}

proof fn lemma_edit_splices_monotone(starts: Seq<int>, edits: Seq<TextEditView>, n: int)
    requires
        0 <= n <= edits.len(),
        edit_splices(starts, edits.take(n)) is None,
    ensures
        edit_splices(starts, edits) is None,
    decreases edits.len(),
{
    if n < edits.len() {
        assert(edits.drop_last().take(n) =~= edits.take(n));
        lemma_edit_splices_monotone(starts, edits.drop_last(), n);
    } else {
        assert(edits.take(n) =~= edits);
    }
}

/// The document after its edits, if they can all be made.
pub fn try_text_edits(source: &str, edits: &[TextEdit]) -> (after: Option<String>)
    ensures
        encoded(after) == edited(source.spec_bytes(), edit_views(edits@)),
{
    let starts = line_start_offsets(source);
    let ghost ints = index_values(starts@);
    let ghost all = edit_views(edits@);
    let mut splices: Vec<Splice> = Vec::new();
    let mut keys: Vec<u64> = Vec::new();
    let mut i: usize = 0;
    assert(splice_views(splices@) =~= Seq::empty());
    while i < edits.len()
        invariant
            i <= edits@.len(),
            ints == index_values(starts@),
            ints == line_starts(source.spec_bytes()),
            all == edit_views(edits@),
            splices@.len() == i,
            keys@.len() == i,
            edit_splices(ints, all.take(i as int)) == Some(splice_views(splices@)),
            forall|j: int|
                0 <= j < i ==> #[trigger] keys@[j] == falling(edits@[j].range.start.rank()),
        decreases edits@.len() - i,
    {
        let range = edits[i].range;
        proof {
            assert(all.take(i + 1).drop_last() =~= all.take(i as int));
            assert(all.take(i + 1).last() == edits@[i as int]@);
            if edit_splice(ints, all[i as int]) is None {
                lemma_edit_splices_monotone(ints, all, i + 1);
            }
        }
        if range.start.line as usize >= starts.len() || range.end.line as usize >= starts.len() {
            return None;
        }
        proof {
            assert(ints[range.start.line as int] == starts@[range.start.line as int]);
            assert(ints[range.end.line as int] == starts@[range.end.line as int]);
        }
        if starts[range.start.line as usize] > usize::MAX - range.start.character as usize
            || starts[range.end.line as usize] > usize::MAX - range.end.character as usize {
            return None;
        }
        let start = offset_of(&starts, range.start.line, range.start.character);
        let end = offset_of(&starts, range.end.line, range.end.character);
        let splice = Splice { start, end, text: edits[i].new_text.clone() };
        let ghost before = splices@;
        splices.push(splice);
        assert(splice_views(splices@) =~= splice_views(before).push(splice@));
        keys.push(u64::MAX - range.start.order_key());
        i += 1;
    }
    assert(all.take(i as int) =~= all);
    assert(key_values(keys@) =~= all.map_values(
        |e: TextEditView| falling(e.range.start.rank()),
    ));
    let order = ascending_order(&keys);
    splice_in_order(source, &splices, &order)
}

/// Whether all of some edits can be made.
pub fn edits_fit(source: &str, edits: &[TextEdit]) -> (fit: bool)
    ensures
        fit == edited(source.spec_bytes(), edit_views(edits@)) is Some,
{
    try_text_edits(source, edits).is_some()
}

/// Apply text edits to a document. Edits are taken by descending start position
/// so that applying one never shifts the offsets of another. All edits are
/// given in the coordinates of `source`.
pub fn apply_text_edits(source: &str, edits: &[TextEdit]) -> (after: String)
    requires
        edited(source.spec_bytes(), edit_views(edits@)) is Some,
    ensures
        edited(source.spec_bytes(), edit_views(edits@)) == Some(encode_utf8(after@)),
{
    try_text_edits(source, edits).unwrap()
}

} // verus!
