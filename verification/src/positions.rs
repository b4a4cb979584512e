//! What edits do to a document, on its bytes and newlines.
use crate::edits::{
    apart, edit_order, edit_splices, edited, falling, last_first, law_one_after_another,
    lemma_apart_all, line_starts, line_starts_upto, offset_at, one_after_another, rebuilt,
    replaceable, spliced_all, SpliceView, TextEditView,
};
use crate::order::{arranged, law_ascending, law_falling_keys};
use crate::protocol::Position;
use crate::scan::lemma_boundary_in_bounds;
use vstd::prelude::*;
use vstd::utf8::*;

verus! {

/// The number of newlines in some bytes.
pub open spec fn newlines_in(bytes: Seq<u8>) -> nat {
    bytes.filter(|b: u8| b == 0x0a).len()
}

proof fn lemma_newlines_push(bytes: Seq<u8>, i: int)
    requires
        0 <= i < bytes.len(),
    ensures
        newlines_in(bytes.take(i + 1)) == newlines_in(bytes.take(i)) + if bytes[i] == 0x0a {
            1nat
        } else {
            0nat
        },
{
    reveal(Seq::filter);
    assert(bytes.take(i + 1).drop_last() =~= bytes.take(i));
    assert(bytes.take(i + 1).last() == bytes[i]);
}

/// A line of a document, counted from zero, begins at an offset: so many newlines
/// stand before it, and the last of them just before it.
pub open spec fn line_begins(bytes: Seq<u8>, line: int, start: int) -> bool {
    &&& 0 <= start <= bytes.len()
    &&& newlines_in(bytes.take(start)) == line
    &&& start == 0 || bytes[start - 1] == 0x0a
}

/// A position stands at an offset: at its column behind the beginning of its
/// line.
pub open spec fn stands_at(bytes: Seq<u8>, position: Position, offset: int) -> bool {
    line_begins(bytes, position.line as int, offset - position.character)
}

proof fn lemma_line_starts(bytes: Seq<u8>, i: int)
    requires
        0 <= i <= bytes.len(),
    ensures
        line_starts_upto(bytes, i).len() == newlines_in(bytes.take(i)) + 1,
        forall|start: int|
            0 <= start <= i && (start == 0 || bytes[start - 1] == 0x0a) ==> newlines_in(
                #[trigger] bytes.take(start),
            ) < line_starts_upto(bytes, i).len() && line_starts_upto(bytes, i)[newlines_in(
                bytes.take(start),
            ) as int] == start,
    decreases i,
{
    if i == 0 {
        reveal(Seq::filter);
        assert(bytes.take(0).len() == 0);
    } else {
        lemma_line_starts(bytes, i - 1);
        lemma_newlines_push(bytes, i - 1);
        assert forall|start: int|
            0 <= start <= i && (start == 0 || bytes[start - 1] == 0x0a) implies newlines_in(
            #[trigger] bytes.take(start),
        ) < line_starts_upto(bytes, i).len() && line_starts_upto(bytes, i)[newlines_in(
            bytes.take(start),
        ) as int] == start by {
            if start < i {
                let before = line_starts_upto(bytes, i - 1);
                assert(newlines_in(bytes.take(start)) < before.len());
            }
        }
    }
}

/// A position stands where the offset of it is.
pub proof fn lemma_offset(bytes: Seq<u8>, position: Position, offset: int)
    requires
        stands_at(bytes, position, offset),
        offset <= usize::MAX,
    ensures
        offset_at(line_starts(bytes), position) == Some(offset),
{
    lemma_line_starts(bytes, bytes.len() as int);
    let start = offset - position.character;
    assert(newlines_in(bytes.take(start)) == position.line);
}

/// The lines of a document begin behind its newlines, and at its beginning: the
/// offsets of the lines are these, in order, and no others.
pub proof fn law_lines_begin_behind_newlines(bytes: Seq<u8>)
    ensures
        line_starts(bytes).len() == newlines_in(bytes) + 1,
        forall|k: int|
            0 <= k < line_starts(bytes).len() ==> line_begins(
                bytes,
                k,
                #[trigger] line_starts(bytes)[k],
            ),
{
    lemma_line_starts(bytes, bytes.len() as int);
    assert(bytes.take(bytes.len() as int) =~= bytes);
    assert forall|k: int| 0 <= k < line_starts(bytes).len() implies line_begins(
        bytes,
        k,
        #[trigger] line_starts(bytes)[k],
    ) by {
        lemma_start_begins(bytes, bytes.len() as int, k);
    }
}

proof fn lemma_start_begins(bytes: Seq<u8>, i: int, k: int)
    requires
        0 <= i <= bytes.len(),
        0 <= k < line_starts_upto(bytes, i).len(),
    ensures
        line_begins(bytes, k, line_starts_upto(bytes, i)[k]),
    decreases i,
{
    reveal(Seq::filter);
    lemma_line_starts(bytes, i);
    if i > 0 {
        lemma_line_starts(bytes, i - 1);
        lemma_newlines_push(bytes, i - 1);
        if k < line_starts_upto(bytes, i - 1).len() {
            lemma_start_begins(bytes, i - 1, k);
        }
    } else {
        assert(bytes.take(0).len() == 0);
    }
}

/// Without edits a document stays as it is.
pub proof fn law_no_edits(source: Seq<char>)
    ensures
        edited(encode_utf8(source), Seq::empty()) == Some(encode_utf8(source)),
{
    let none = Seq::<TextEditView>::empty();
    law_ascending(none.map_values(|e: TextEditView| falling(e.range.start.rank())));
    assert(arranged(Seq::<SpliceView>::empty(), edit_order(none)).len() == 0);
}

/// One edit replaces what stands from its start position up to its end position
/// by its text, whatever that is, and leaves everything before and behind.
pub proof fn law_one_edit(source: Seq<char>, edit: TextEditView, start: int, end: int)
    requires
        encode_utf8(source).len() <= usize::MAX,
        stands_at(encode_utf8(source), edit.range.start, start),
        stands_at(encode_utf8(source), edit.range.end, end),
        start <= end,
        is_char_boundary(encode_utf8(source), start),
        is_char_boundary(encode_utf8(source), end),
    ensures
        edited(encode_utf8(source), seq![edit]) == Some(
            encode_utf8(source).take(start) + encode_utf8(edit.new_text) + encode_utf8(
                source,
            ).skip(end),
        ),
{
    let bytes = encode_utf8(source);
    let edits = Seq::<TextEditView>::empty().push(edit);
    law_no_edits(source);
    assert(edits =~= seq![edit]);
    let none = Seq::<int>::empty();
    law_one_more_edit(source, Seq::empty(), none, none, edit, start, end);
    assert(bytes.take(bytes.len() - (bytes.len() - start)) =~= bytes.take(start));
}

/// The places of some edits: each starts and ends at characters of the document,
/// and they stand one after the other.
pub open spec fn edits_stand(
    bytes: Seq<u8>,
    edits: Seq<TextEditView>,
    starts: Seq<int>,
    ends: Seq<int>,
) -> bool {
    &&& starts.len() == edits.len() && ends.len() == edits.len()
    &&& forall|i: int|
        0 <= i < edits.len() ==> {
            &&& stands_at(bytes, (#[trigger] edits[i]).range.start, starts[i])
            &&& stands_at(bytes, edits[i].range.end, ends[i])
            &&& starts[i] <= ends[i]
            &&& is_char_boundary(bytes, starts[i])
            &&& is_char_boundary(bytes, ends[i])
        }
    &&& forall|i: int, j: int|
        0 <= i < j < edits.len() ==> #[trigger] starts[i] < #[trigger] starts[j] && ends[i]
            <= starts[j]
    &&& forall|i: int, j: int|
        0 <= i < j < edits.len() ==> (#[trigger] edits[i]).range.start.rank() < (
        #[trigger] edits[j]).range.start.rank()
}

proof fn lemma_edit_splices(
    bytes: Seq<u8>,
    edits: Seq<TextEditView>,
    starts: Seq<int>,
    ends: Seq<int>,
)
    requires
        valid_utf8(bytes),
        bytes.len() <= usize::MAX,
        edits_stand(bytes, edits, starts, ends),
    ensures
        edit_splices(line_starts(bytes), edits) == Some(
            Seq::new(
                edits.len(),
                |i: int| SpliceView { start: starts[i], end: ends[i], text: edits[i].new_text },
            ),
        ),
    decreases edits.len(),
{
    let list = Seq::new(
        edits.len(),
        |i: int| SpliceView { start: starts[i], end: ends[i], text: edits[i].new_text },
    );
    if edits.len() == 0 {
        assert(list =~= Seq::empty());
    } else {
        let n = edits.len() - 1;
        let rest = edits.drop_last();
        assert(edits_stand(bytes, rest, starts.drop_last(), ends.drop_last())) by {
            assert forall|i: int| 0 <= i < rest.len() implies {
                &&& stands_at(bytes, (#[trigger] rest[i]).range.start, starts.drop_last()[i])
                &&& stands_at(bytes, rest[i].range.end, ends.drop_last()[i])
                &&& starts.drop_last()[i] <= ends.drop_last()[i]
                &&& is_char_boundary(bytes, starts.drop_last()[i])
                &&& is_char_boundary(bytes, ends.drop_last()[i])
            } by {
                assert(rest[i] == edits[i]);
            }
        }
        lemma_edit_splices(bytes, rest, starts.drop_last(), ends.drop_last());
        assert(edits[n] == edits.last());
        lemma_boundary_in_bounds(bytes, starts[n]);
        lemma_boundary_in_bounds(bytes, ends[n]);
        lemma_offset(bytes, edits[n].range.start, starts[n]);
        lemma_offset(bytes, edits[n].range.end, ends[n]);
        let before = Seq::new(
            rest.len(),
            |i: int|
                SpliceView {
                    start: starts.drop_last()[i],
                    end: ends.drop_last()[i],
                    text: rest[i].new_text,
                },
        );
        assert(list =~= before.push(
            SpliceView { start: starts[n], end: ends[n], text: edits[n].new_text },
        ));
    }
}

/// The edits of a document as replacements from the last to the first.
proof fn lemma_edits_rebuild(
    source: Seq<char>,
    edits: Seq<TextEditView>,
    starts: Seq<int>,
    ends: Seq<int>,
) -> (list: Seq<SpliceView>)
    requires
        encode_utf8(source).len() <= usize::MAX,
        edits_stand(encode_utf8(source), edits, starts, ends),
    ensures
        list.len() == edits.len(),
        forall|a: int|
            0 <= a < list.len() ==> #[trigger] list[a] == (SpliceView {
                start: starts[list.len() - 1 - a],
                end: ends[list.len() - 1 - a],
                text: edits[list.len() - 1 - a].new_text,
            }),
        apart(encode_utf8(source), list),
        edited(encode_utf8(source), edits) == Some(
            rebuilt(encode_utf8(source), list, encode_utf8(source).len() as int),
        ),
{
    let bytes = encode_utf8(source);
    encode_utf8_valid_utf8(source);
    lemma_edit_splices(bytes, edits, starts, ends);
    let splices = edit_splices(line_starts(bytes), edits)->0;
    let keys = edits.map_values(|e: TextEditView| falling(e.range.start.rank()));
    assert forall|i: int, j: int| 0 <= i < j < keys.len() implies (#[trigger] keys[i]) > (
    #[trigger] keys[j]) by {
        assert(edits[i].range.start.rank() < edits[j].range.start.rank());
    }
    law_falling_keys(keys);
    let list = arranged(splices, edit_order(edits));
    assert forall|i: int| 0 <= i < list.len() implies replaceable(
        bytes,
        (#[trigger] list[i]).start,
        list[i].end,
    ) by {
        let k = list.len() - 1 - i;
        assert(list[i] == splices[k]);
        assert(edits[k] == edits[k]);
    }
    assert forall|i: int, j: int| 0 <= i < j < list.len() implies (#[trigger] list[j]).end <= (
    #[trigger] list[i]).start by {
        let k = list.len() - 1 - i;
        let l = list.len() - 1 - j;
        assert(list[i] == splices[k] && list[j] == splices[l]);
        assert(starts[l] < starts[k]);
    }
    lemma_apart_all(source, list);
    list
}

/// What is rebuilt up to an offset, and what follows behind it.
pub proof fn lemma_rebuilt_upto(bytes: Seq<u8>, list: Seq<SpliceView>, upto: int, more: int)
    requires
        0 <= upto <= more <= bytes.len(),
        list.len() > 0 ==> 0 <= list[0].end <= upto,
    ensures
        rebuilt(bytes, list, more) == rebuilt(bytes, list, upto) + bytes.subrange(upto, more),
{
    if list.len() == 0 {
        assert(bytes.take(more) =~= bytes.take(upto) + bytes.subrange(upto, more));
    } else {
        assert(bytes.subrange(list[0].end, more) =~= bytes.subrange(list[0].end, upto)
            + bytes.subrange(upto, more));
        assert(rebuilt(bytes, list, more) =~= rebuilt(bytes, list, upto) + bytes.subrange(
            upto,
            more,
        ));
    }
}

/// One more edit behind the others replaces its range in what these leave: the
/// text before its start is what they make of it, and what stands behind its end
/// stays. No edit shifts another.
pub proof fn law_one_more_edit(
    source: Seq<char>,
    edits: Seq<TextEditView>,
    starts: Seq<int>,
    ends: Seq<int>,
    edit: TextEditView,
    start: int,
    end: int,
)
    requires
        encode_utf8(source).len() <= usize::MAX,
        edits_stand(encode_utf8(source), edits, starts, ends),
        edits_stand(encode_utf8(source), edits.push(edit), starts.push(start), ends.push(end)),
    ensures
        ({
            let bytes = encode_utf8(source);
            let others = edited(bytes, edits)->0;
            &&& edited(bytes, edits) is Some
            &&& edited(bytes, edits.push(edit)) == Some(
                others.take(others.len() - (bytes.len() - start)) + encode_utf8(edit.new_text)
                    + bytes.skip(end),
            )
        }),
{
    let bytes = encode_utf8(source);
    let n = edits.len() as int;
    let list = lemma_edits_rebuild(source, edits, starts, ends);
    let longer = lemma_edits_rebuild(source, edits.push(edit), starts.push(start), ends.push(end));
    encode_utf8_valid_utf8(source);
    let all = edits.push(edit);
    assert(all[n] == edit);
    assert(starts.push(start)[n] == start && ends.push(end)[n] == end);
    lemma_boundary_in_bounds(bytes, start);
    lemma_boundary_in_bounds(bytes, end);
    assert(longer[0] == (SpliceView { start, end, text: edit.new_text }));
    assert forall|a: int| 0 <= a < list.len() implies longer.drop_first()[a] == list[a] by {
        let k = list.len() - 1 - a;
        assert(longer[a + 1].start == starts.push(start)[k]);
        assert(all[k] == edits[k]);
        assert(longer.drop_first()[a] == longer[a + 1]);
    }
    assert(longer.drop_first() =~= list);
    if n > 0 {
        assert(list[0].end == ends[n - 1]);
        assert(starts.push(start)[n - 1] < starts.push(start)[n]);
        assert(ends.push(end)[n - 1] == ends[n - 1]);
        assert(all[n - 1] == edits[n - 1]);
        lemma_boundary_in_bounds(bytes, ends[n - 1]);
    }
    lemma_rebuilt_upto(bytes, list, start, bytes.len() as int);
    let others = rebuilt(bytes, list, bytes.len() as int);
    assert(others.take(others.len() - (bytes.len() - start)) =~= rebuilt(bytes, list, start));
    assert(bytes.subrange(end, bytes.len() as int) =~= bytes.skip(end));
}

/// One more replacement behind the others replaces its range in what these
/// leave.
pub proof fn law_one_more_replacement(text: Seq<char>, splices: Seq<SpliceView>, splice: SpliceView)
    requires
        one_after_another(encode_utf8(text), splices.push(splice)),
    ensures
        ({
            let bytes = encode_utf8(text);
            let others = spliced_all(bytes, last_first(splices))->0;
            &&& spliced_all(bytes, last_first(splices)) is Some
            &&& spliced_all(bytes, last_first(splices.push(splice))) == Some(
                others.take(others.len() - (bytes.len() - splice.start)) + encode_utf8(splice.text)
                    + bytes.skip(splice.end),
            )
        }),
{
    let bytes = encode_utf8(text);
    let all = splices.push(splice);
    let n = splices.len() as int;
    encode_utf8_valid_utf8(text);
    assert(one_after_another(bytes, splices)) by {
        assert forall|i: int| 0 <= i < splices.len() implies replaceable(
            bytes,
            (#[trigger] splices[i]).start,
            splices[i].end,
        ) by {
            assert(all[i] == splices[i]);
        }
        assert forall|i: int, j: int| 0 <= i < j < splices.len() implies (
        #[trigger] splices[i]).start < (#[trigger] splices[j]).start && splices[i].end
            <= splices[j].start by {
            assert(all[i] == splices[i] && all[j] == splices[j]);
        }
    }
    law_one_after_another(text, splices);
    law_one_after_another(text, all);
    lemma_last_first_turned(splices);
    lemma_last_first_turned(all);
    let list = last_first(splices);
    let longer = last_first(all);
    assert(all[n] == splice);
    assert(replaceable(bytes, all[n].start, all[n].end));
    lemma_boundary_in_bounds(bytes, splice.start);
    lemma_boundary_in_bounds(bytes, splice.end);
    assert(longer[0] == splice);
    assert forall|a: int| 0 <= a < list.len() implies longer.drop_first()[a] == list[a] by {
        assert(longer.drop_first()[a] == longer[a + 1]);
        assert(all[n - 1 - a] == splices[n - 1 - a]);
    }
    assert(longer.drop_first() =~= list);
    if n > 0 {
        assert(all[n - 1] == splices[n - 1]);
        assert(all[n - 1].start < all[n].start);
        assert(list[0] == splices[n - 1]);
        assert(replaceable(bytes, all[n - 1].start, all[n - 1].end));
        lemma_boundary_in_bounds(bytes, splices[n - 1].end);
    }
    lemma_rebuilt_upto(bytes, list, splice.start, bytes.len() as int);
    let others = rebuilt(bytes, list, bytes.len() as int);
    assert(others.take(others.len() - (bytes.len() - splice.start)) =~= rebuilt(
        bytes,
        list,
        splice.start,
    ));
    assert(bytes.subrange(splice.end, bytes.len() as int) =~= bytes.skip(splice.end));
}

/// Replacements that are listed from the first to the last, turned round.
pub proof fn lemma_last_first_turned(splices: Seq<SpliceView>)
    requires
        forall|i: int, j: int|
            0 <= i < j < splices.len() ==> (#[trigger] splices[i]).start < (
            #[trigger] splices[j]).start,
    ensures
        last_first(splices).len() == splices.len(),
        forall|a: int|
            0 <= a < splices.len() ==> #[trigger] last_first(splices)[a] == splices[splices.len()
                - 1 - a],
{
    let keys = splices.map_values(|s: SpliceView| falling(s.start));
    assert forall|i: int, j: int| 0 <= i < j < keys.len() implies (#[trigger] keys[i]) > (
    #[trigger] keys[j]) by {
        assert(splices[i].start < splices[j].start);
    }
    law_falling_keys(keys);
}

} // verus!
