//! The order in which edits are given does not matter, and edits that do not fit are
//! refused.
use crate::edits::{
    edit_order, edit_splice, edit_splices, edited, falling, last_first, line_starts, replaceable,
    spliced, spliced_all, SpliceView, TextEditView,
};
use crate::layout::{resolved, value_edits_last_first, ValueEditView};
use crate::lists::lemma_boundary;
use crate::order::{arranged, ascending, law_ascending, ranks_before};
use crate::positions::{law_lines_begin_behind_newlines, lemma_offset, newlines_in, stands_at};
use crate::text::lemma_encode_concat;
use vstd::prelude::*;
use vstd::utf8::*;

verus! {

/// An order of a list: each of its places once.
pub open spec fn shuffles(order: Seq<int>, length: nat) -> bool {
    &&& order.len() == length
    &&& forall|a: int| 0 <= a < length ==> 0 <= #[trigger] order[a] < length
    &&& forall|i: int| 0 <= i < length ==> #[trigger] order.contains(i)
    &&& forall|a: int, b: int|
        0 <= a < b < length ==> (#[trigger] order[a]) != (#[trigger] order[b])
}

/// A list in another order.
pub open spec fn shuffled<T>(items: Seq<T>, order: Seq<int>) -> Seq<T> {
    Seq::new(order.len(), |a: int| items[order[a]])
}

/// Places by growing keys.
spec fn by_keys(keys: Seq<int>, places: Seq<int>) -> bool {
    forall|a: int, b: int|
        0 <= a < b < places.len() ==> keys[#[trigger] places[a]] < keys[#[trigger] places[b]]
}

proof fn lemma_one_way(keys: Seq<int>, a: Seq<int>, b: Seq<int>)
    requires
        by_keys(keys, a),
        by_keys(keys, b),
        forall|x: int| a.contains(x) <==> b.contains(x),
    ensures
        a == b,
    decreases a.len(),
{
    if a.len() == 0 {
        if b.len() > 0 {
            assert(b.contains(b[0]));
            assert(a.contains(b[0]));
        }
        assert(a =~= b);
    } else {
        let m = a.len() - 1;
        assert(a.contains(a[m]));
        assert(b.contains(a[m]));
        let j = choose|j: int| 0 <= j < b.len() && b[j] == a[m];
        let n = b.len() - 1;
        assert(b.contains(b[n]));
        assert(a.contains(b[n]));
        let i = choose|i: int| 0 <= i < a.len() && a[i] == b[n];
        assert(a[m] == b[n]) by {
            if i < m && j < n {
                assert(keys[a[i]] < keys[a[m]]);
                assert(keys[b[j]] < keys[b[n]]);
            }
        }
        let fewer = a.drop_last();
        let others = b.drop_last();
        assert forall|x: int| fewer.contains(x) <==> others.contains(x) by {
            if fewer.contains(x) {
                let k = choose|k: int| 0 <= k < fewer.len() && fewer[k] == x;
                assert(a[k] == x);
                assert(a.contains(x));
                assert(keys[a[k]] < keys[a[m]]);
                let l = choose|l: int| 0 <= l < b.len() && b[l] == x;
                assert(l < n);
                assert(others[l] == x);
            }
            if others.contains(x) {
                let k = choose|k: int| 0 <= k < others.len() && others[k] == x;
                assert(b[k] == x);
                assert(b.contains(x));
                assert(keys[b[k]] < keys[b[n]]);
                let l = choose|l: int| 0 <= l < a.len() && a[l] == x;
                assert(l < m);
                assert(fewer[l] == x);
            }
        }
        assert forall|x: int, y: int| 0 <= x < y < fewer.len() implies keys[#[trigger] fewer[x]]
            < keys[#[trigger] fewer[y]] by {
            assert(fewer[x] == a[x] && fewer[y] == a[y]);
        }
        assert forall|x: int, y: int| 0 <= x < y < others.len() implies keys[#[trigger] others[x]]
            < keys[#[trigger] others[y]] by {
            assert(others[x] == b[x] && others[y] == b[y]);
        }
        lemma_one_way(keys, fewer, others);
        assert(a =~= fewer.push(a[m]));
        assert(b =~= others.push(b[n]));
    }
}

/// A list is put in order to the same list, however it was ordered before, where no
/// two keys are the same.
proof fn lemma_same_order<T>(items: Seq<T>, keys: Seq<int>, order: Seq<int>)
    requires
        items.len() == keys.len(),
        shuffles(order, keys.len()),
        forall|i: int, j: int|
            0 <= i < j < keys.len() ==> (#[trigger] keys[i]) != (#[trigger] keys[j]),
    ensures
        arranged(shuffled(items, order), ascending(shuffled(keys, order))) == arranged(
            items,
            ascending(keys),
        ),
{
    let n = keys.len();
    let other = shuffled(keys, order);
    let places = ascending(keys);
    let inner = ascending(other);
    let moved = inner.map_values(|a: int| order[a]);
    law_ascending(keys);
    law_ascending(other);
    assert forall|a: int, b: int| 0 <= a < b < places.len() implies keys[#[trigger] places[a]]
        < keys[#[trigger] places[b]] by {
        assert(ranks_before(keys, places[a], places[b]));
        assert(keys[places[a]] != keys[places[b]]);
    }
    assert forall|a: int, b: int| 0 <= a < b < moved.len() implies keys[#[trigger] moved[a]]
        < keys[#[trigger] moved[b]] by {
        assert(ranks_before(other, inner[a], inner[b]));
        assert(other[inner[a]] == keys[moved[a]] && other[inner[b]] == keys[moved[b]]);
        assert(inner[a] != inner[b]);
        assert(order[inner[a]] != order[inner[b]]);
        assert(keys[moved[a]] != keys[moved[b]]);
    }
    assert forall|x: int| places.contains(x) <==> moved.contains(x) by {
        if places.contains(x) {
            assert(0 <= x < n);
            assert(order.contains(x));
            let a = choose|a: int| 0 <= a < order.len() && order[a] == x;
            assert(inner.contains(a));
            let b = choose|b: int| 0 <= b < inner.len() && inner[b] == a;
            assert(moved[b] == x);
        }
        if moved.contains(x) {
            let b = choose|b: int| 0 <= b < moved.len() && moved[b] == x;
            assert(0 <= inner[b] < n);
            assert(0 <= order[inner[b]] < n);
            assert(places.contains(x));
        }
    }
    lemma_one_way(keys, places, moved);
    assert(arranged(shuffled(items, order), inner) =~= arranged(items, places)) by {
        assert forall|a: int| 0 <= a < n implies arranged(shuffled(items, order), inner)[a]
            == arranged(items, places)[a] by {
            assert(places[a] == moved[a]);
            assert(0 <= inner[a] < n);
        }
    }
}

/// Replacements make the same of a text in whatever order they are given.
pub proof fn law_replacements_in_any_order(
    bytes: Seq<u8>,
    splices: Seq<SpliceView>,
    order: Seq<int>,
)
    requires
        shuffles(order, splices.len()),
        forall|i: int, j: int|
            0 <= i < j < splices.len() ==> (#[trigger] splices[i]).start != (
            #[trigger] splices[j]).start,
    ensures
        spliced_all(bytes, last_first(shuffled(splices, order))) == spliced_all(
            bytes,
            last_first(splices),
        ),
{
    let keys = splices.map_values(|s: SpliceView| falling(s.start));
    assert(shuffled(splices, order).map_values(|s: SpliceView| falling(s.start)) =~= shuffled(
        keys,
        order,
    ));
    assert forall|i: int, j: int| 0 <= i < j < keys.len() implies (#[trigger] keys[i]) != (
    #[trigger] keys[j]) by {
        assert(splices[i].start != splices[j].start);
    }
    lemma_same_order(splices, keys, order);
}

/// Edits make the same of a document in whatever order they are given.
pub proof fn law_edits_in_any_order(bytes: Seq<u8>, edits: Seq<TextEditView>, order: Seq<int>)
    requires
        shuffles(order, edits.len()),
        forall|i: int, j: int|
            0 <= i < j < edits.len() ==> (#[trigger] edits[i]).range.start != (
            #[trigger] edits[j]).range.start,
    ensures
        edited(bytes, shuffled(edits, order)) == edited(bytes, edits),
{
    let starts = line_starts(bytes);
    let other = shuffled(edits, order);
    let keys = edits.map_values(|e: TextEditView| falling(e.range.start.rank()));
    assert(other.map_values(|e: TextEditView| falling(e.range.start.rank())) =~= shuffled(
        keys,
        order,
    ));
    assert forall|i: int, j: int| 0 <= i < j < keys.len() implies (#[trigger] keys[i]) != (
    #[trigger] keys[j]) by {
        assert(edits[i].range.start != edits[j].range.start);
        crate::protocol::law_rank_orders_positions(edits[i].range.start, edits[j].range.start);
        crate::protocol::law_rank_orders_positions(edits[j].range.start, edits[i].range.start);
    }
    lemma_all_splices(starts, edits);
    lemma_all_splices(starts, other);
    if edit_splices(starts, edits) is Some {
        let splices = edit_splices(starts, edits)->0;
        assert forall|i: int| 0 <= i < other.len() implies edit_splice(
            starts,
            #[trigger] other[i],
        ) is Some by {
            assert(0 <= order[i] < edits.len());
            assert(edit_splice(starts, edits[order[i]]) is Some);
        }
        assert(edit_splices(starts, other)->0 =~= shuffled(splices, order)) by {
            assert forall|i: int| 0 <= i < other.len() implies edit_splices(starts, other)->0[i]
                == shuffled(splices, order)[i] by {
                assert(other[i] == edits[order[i]]);
                assert(0 <= order[i] < edits.len());
            }
        }
        lemma_same_order(splices, keys, order);
    } else {
        let i = choose|i: int|
            0 <= i < edits.len() && edit_splice(starts, #[trigger] edits[i]) is None;
        assert(order.contains(i));
        let a = choose|a: int| 0 <= a < order.len() && order[a] == i;
        assert(edit_splice(starts, other[a]) is None);
    }
}

proof fn lemma_all_splices(starts: Seq<int>, edits: Seq<TextEditView>)
    ensures
        edit_splices(starts, edits) is Some <==> (forall|i: int|
            0 <= i < edits.len() ==> edit_splice(starts, #[trigger] edits[i]) is Some),
        edit_splices(starts, edits) matches Some(splices) ==> splices.len() == edits.len() && (
        forall|i: int|
            0 <= i < edits.len() ==> #[trigger] splices[i] == edit_splice(starts, edits[i])->0),
    decreases edits.len(),
{
    if edits.len() > 0 {
        let rest = edits.drop_last();
        lemma_all_splices(starts, rest);
        assert(edits[edits.len() - 1] == edits.last());
        if edit_splices(starts, rest) is Some {
            assert forall|i: int| 0 <= i < rest.len() implies edit_splice(
                starts,
                #[trigger] edits[i],
            ) is Some by {
                assert(rest[i] == edits[i]);
            }
        } else {
            let i = choose|i: int|
                0 <= i < rest.len() && edit_splice(starts, #[trigger] rest[i]) is None;
            assert(edits[i] == rest[i]);
        }
    }
}

/// The edits of a list's classes make the same list in whatever order they are given.
pub proof fn law_class_edits_in_any_order(
    classes: Seq<Seq<char>>,
    edits: Seq<ValueEditView>,
    order: Seq<int>,
)
    requires
        shuffles(order, edits.len()),
        forall|i: int, j: int|
            0 <= i < j < edits.len() ==> (#[trigger] edits[i]).start != (#[trigger] edits[j]).start,
    ensures
        resolved(classes, shuffled(edits, order)) == resolved(classes, edits),
{
    let keys = edits.map_values(|e: ValueEditView| falling(e.start));
    assert(shuffled(edits, order).map_values(|e: ValueEditView| falling(e.start)) =~= shuffled(
        keys,
        order,
    ));
    assert forall|i: int, j: int| 0 <= i < j < keys.len() implies (#[trigger] keys[i]) != (
    #[trigger] keys[j]) by {
        assert(edits[i].start != edits[j].start);
    }
    lemma_same_order(edits, keys, order);
    assert(value_edits_last_first(shuffled(edits, order)) == value_edits_last_first(edits));
}

/// Of two replacements at the same place the second is made before the first.
pub proof fn law_same_place(a: Seq<char>, first: Seq<char>, second: Seq<char>, b: Seq<char>)
    ensures
        ({
            let place = encode_utf8(a).len() as int;
            spliced_all(
                encode_utf8(a + b),
                last_first(
                    seq![
                        SpliceView { start: place, end: place, text: first },
                        SpliceView { start: place, end: place, text: second },
                    ],
                ),
            ) == Some(encode_utf8(a + second + first + b))
        }),
{
    let place = encode_utf8(a).len() as int;
    let one = SpliceView { start: place, end: place, text: first };
    let other = SpliceView { start: place, end: place, text: second };
    let splices = seq![one, other];
    let keys = splices.map_values(|s: SpliceView| falling(s.start));
    law_ascending(keys);
    let order = ascending(keys);
    assert(ranks_before(keys, order[0], order[1]));
    assert(keys[0] == keys[1]);
    assert(order[0] == 0 && order[1] == 1);
    let list = last_first(splices);
    assert(list =~= splices);
    let bytes = encode_utf8(a + b);
    let between = encode_utf8(a + first + b);
    lemma_encode_concat(a, b);
    lemma_encode_concat(a + first, b);
    lemma_encode_concat(a, first);
    lemma_boundary(a, b);
    assert(spliced(bytes, one) == Some(between)) by {
        assert(bytes.take(place) + encode_utf8(first) + bytes.skip(place) =~= between);
    }
    let end = encode_utf8(a + second + first + b);
    assert(a + first + b =~= a + (first + b));
    lemma_boundary(a, first + b);
    lemma_encode_concat(a, first + b);
    lemma_encode_concat(a + second, first + b);
    lemma_encode_concat(a, second);
    assert(a + second + first + b =~= a + second + (first + b));
    assert(spliced(between, other) == Some(end)) by {
        assert(between.take(place) + encode_utf8(second) + between.skip(place) =~= end);
    }
    let rest = list.drop_first();
    assert(rest =~= seq![other]);
    assert(rest.drop_first() =~= Seq::empty());
    assert(spliced_all(end, rest.drop_first()) == Some(end));
    assert(spliced_all(between, rest) == Some(end));
}

/// Edits are refused where one of them names a line that the document does not have.
pub proof fn law_missing_lines(bytes: Seq<u8>, edits: Seq<TextEditView>, i: int)
    requires
        0 <= i < edits.len(),
        edits[i].range.start.line > newlines_in(bytes) || edits[i].range.end.line > newlines_in(
            bytes,
        ),
    ensures
        edited(bytes, edits) is None,
{
    let starts = line_starts(bytes);
    law_lines_begin_behind_newlines(bytes);
    assert(edit_splice(starts, edits[i]) is None);
    lemma_all_splices(starts, edits);
}

/// An edit is refused where it ends before it starts, or where one of its ends stands
/// within a character or behind the end of the document.
pub proof fn law_no_such_range(bytes: Seq<u8>, edit: TextEditView, start: int, end: int)
    requires
        start <= usize::MAX,
        end <= usize::MAX,
        stands_at(bytes, edit.range.start, start),
        stands_at(bytes, edit.range.end, end),
        start > end || !is_char_boundary(bytes, start) || !is_char_boundary(bytes, end),
    ensures
        edited(bytes, seq![edit]) is None,
{
    let edits = seq![edit];
    let starts = line_starts(bytes);
    lemma_offset(bytes, edit.range.start, start);
    lemma_offset(bytes, edit.range.end, end);
    assert(edit_splice(starts, edits[0]) is Some);
    lemma_all_splices(starts, edits);
    let splices = edit_splices(starts, edits)->0;
    law_ascending(edits.map_values(|e: TextEditView| falling(e.range.start.rank())));
    let list = arranged(splices, edit_order(edits));
    assert(edit_order(edits)[0] == 0);
    assert(list.len() == 1 && list[0] == splices[0]);
    assert(splices[0] == edit_splice(starts, edits[0])->0);
    assert(!replaceable(bytes, list[0].start, list[0].end));
}

} // verus!
