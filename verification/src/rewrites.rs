//! What the second pass of a fix writes: every block that is to change changes,
//! and it alone.
use crate::blocks::{items_at, BlockKey};
use crate::edits::{last_first, one_after_another, rebuilt, replaceable, SpliceView};
use crate::fix::{
    current_text, fixed_list, law_fix_keeps_the_rest, lemma_fix_in_order, lists_apart, record_after,
    rewritten, rewritten_all, source_notes, source_rewrite, FixRecordView, RewriteNotes,
    RewriteView,
};
use crate::groups::GroupView;
use crate::layout::{unrepeated, ValueEditView};
use crate::positions::{lemma_last_first_turned, lemma_rebuilt_upto};
use crate::scan::lemma_boundary_in_bounds;
use vstd::prelude::*;
use vstd::utf8::*;

verus! {

/// No two blocks of a source start at the same offset.
pub open spec fn starts_differ(groups: Seq<GroupView>) -> bool {
    forall|i: int, j: int|
        0 <= i < j < groups.len() ==> (#[trigger] groups[i]).start != (#[trigger] groups[j]).start
}

/// A block is to change: something is recorded for it, or it holds a class twice,
/// and its list does not read as it should.
pub open spec fn to_change(
    edits: Map<BlockKey, Seq<ValueEditView>>,
    file: Seq<char>,
    bytes: Seq<u8>,
    group: GroupView,
) -> bool {
    let recorded = items_at(edits, (file, group.start));
    &&& recorded.len() > 0 || !unrepeated(group.classes)
    &&& fixed_list(bytes, group, recorded) != current_text(bytes, group.start, group.end)
}

/// The replacement of a block's list by what it should read.
pub open spec fn list_splice(
    edits: Map<BlockKey, Seq<ValueEditView>>,
    file: Seq<char>,
    bytes: Seq<u8>,
    group: GroupView,
) -> SpliceView {
    SpliceView {
        start: group.start,
        end: group.end,
        text: fixed_list(bytes, group, items_at(edits, (file, group.start))),
    }
}

/// What is recorded of a block is untouched until its turn comes.
proof fn lemma_edits_wait(
    notes: RewriteNotes,
    file: Seq<char>,
    bytes: Seq<u8>,
    groups: Seq<GroupView>,
    key: BlockKey,
)
    requires
        forall|i: int| 0 <= i < groups.len() ==> (file, (#[trigger] groups[i]).start) != key,
    ensures
        items_at(rewritten_all(notes, file, bytes, groups).edits, key) == items_at(
            notes.edits,
            key,
        ),
    decreases groups.len(),
{
    if groups.len() > 0 {
        let rest = groups.drop_last();
        assert forall|i: int| 0 <= i < rest.len() implies (file, (#[trigger] rest[i]).start)
            != key by {
            assert(rest[i] == groups[i]);
        }
        lemma_edits_wait(notes, file, bytes, rest, key);
        assert((file, groups[groups.len() - 1].start) != key);
    }
}

/// What a fix has recorded for other blocks than those of a source stays; what it
/// has recorded for these is used up.
pub proof fn law_edits_are_used_once(
    record: FixRecordView,
    file: Seq<char>,
    bytes: Seq<u8>,
    groups: Seq<GroupView>,
    key: BlockKey,
)
    ensures
        ({
            let left = rewritten_all(source_notes(record), file, bytes, groups).edits;
            if exists|i: int|
                0 <= i < groups.len() && key == (file, (#[trigger] groups[i]).start) {
                items_at(left, key).len() == 0
            } else {
                items_at(left, key) == items_at(record.edits, key)
            }
        }),
    decreases groups.len(),
{
    if !(exists|i: int| 0 <= i < groups.len() && key == (file, (#[trigger] groups[i]).start)) {
        lemma_edits_wait(source_notes(record), file, bytes, groups, key);
    } else {
        let rest = groups.drop_last();
        let last = groups.last();
        law_edits_are_used_once(record, file, bytes, rest, key);
        let i = choose|i: int| 0 <= i < groups.len() && key == (file, (#[trigger] groups[i]).start);
        if i < rest.len() {
            assert(rest[i] == groups[i]);
        }
    }
}

/// The blocks of a source are rewritten one by one, each for itself: every block
/// that is to change has the replacement of its list, there is no other
/// replacement, and they come in the order of the blocks. The replacements of
/// blocks for which nothing is recorded are counted.
pub proof fn law_every_changed_block_is_rewritten(
    record: FixRecordView,
    file: Seq<char>,
    bytes: Seq<u8>,
    groups: Seq<GroupView>,
)
    requires
        starts_differ(groups),
        forall|i: int| 0 <= i < groups.len() ==> is_char_boundary(bytes, (#[trigger] groups[i]).start),
    ensures
        ({
            let notes = rewritten_all(source_notes(record), file, bytes, groups);
            &&& notes.fits
            &&& notes.splices == groups.filter(
                |g: GroupView| to_change(record.edits, file, bytes, g),
            ).map_values(|g: GroupView| list_splice(record.edits, file, bytes, g))
            &&& forall|i: int|
                0 <= i < groups.len() && to_change(
                    record.edits,
                    file,
                    bytes,
                    #[trigger] groups[i],
                ) ==> notes.splices.contains(list_splice(record.edits, file, bytes, groups[i]))
            &&& record.reformatted + groups.len() <= usize::MAX ==> notes.reformatted
                == record.reformatted + groups.filter(
                |g: GroupView|
                    to_change(record.edits, file, bytes, g) && items_at(
                        record.edits,
                        (file, g.start),
                    ).len() == 0,
            ).len()
        }),
    decreases groups.len(),
{
    reveal(Seq::filter);
    let edits = record.edits;
    let changing = |g: GroupView| to_change(edits, file, bytes, g);
    let bare = |g: GroupView|
        to_change(edits, file, bytes, g) && items_at(edits, (file, g.start)).len() == 0;
    let splice = |g: GroupView| list_splice(edits, file, bytes, g);
    let notes = rewritten_all(source_notes(record), file, bytes, groups);
    if groups.len() == 0 {
        assert(notes.splices =~= groups.filter(changing).map_values(splice));
    } else {
        let rest = groups.drop_last();
        let last = groups.last();
        let n = groups.len() - 1;
        assert(groups[n] == last);
        assert(starts_differ(rest)) by {
            assert forall|i: int, j: int| 0 <= i < j < rest.len() implies (
            #[trigger] rest[i]).start != (#[trigger] rest[j]).start by {
                assert(rest[i] == groups[i] && rest[j] == groups[j]);
            }
        }
        assert forall|i: int| 0 <= i < rest.len() implies is_char_boundary(
            bytes,
            (#[trigger] rest[i]).start,
        ) by {
            assert(rest[i] == groups[i]);
        }
        law_every_changed_block_is_rewritten(record, file, bytes, rest);
        let before = rewritten_all(source_notes(record), file, bytes, rest);
        let key = (file, last.start);
        assert forall|i: int| 0 <= i < rest.len() implies (file, (#[trigger] rest[i]).start)
            != key by {
            assert(rest[i] == groups[i]);
            assert(groups[i].start != groups[n].start);
        }
        lemma_edits_wait(source_notes(record), file, bytes, rest, key);
        assert(notes == rewritten(before, file, bytes, last));
        assert(items_at(before.edits, key) == items_at(edits, key));
        assert(rest.filter(bare).len() <= rest.len()) by {
            lemma_filter_shorter(rest, bare);
        }
        if to_change(edits, file, bytes, last) {
            assert(groups.filter(changing) == rest.filter(changing).push(last));
            assert(groups.filter(changing).map_values(splice) =~= rest.filter(changing).map_values(
                splice,
            ).push(list_splice(edits, file, bytes, last)));
        }
        assert(notes.splices == groups.filter(changing).map_values(splice));
    }
    assert forall|i: int|
        0 <= i < groups.len() && to_change(edits, file, bytes, #[trigger] groups[i]) implies
    notes.splices.contains(list_splice(edits, file, bytes, groups[i])) by {
        groups.lemma_filter_contains(changing, i);
        let kept = groups.filter(changing);
        let k = choose|k: int| 0 <= k < kept.len() && kept[k] == groups[i];
        assert(notes.splices[k] == list_splice(edits, file, bytes, groups[i]));
    }
}

/// A fix takes over from a source what is left recorded and what was written anew,
/// and keeps its other counts.
pub proof fn law_record_after_a_source(
    record: FixRecordView,
    file: Seq<char>,
    text: Seq<char>,
    groups: Seq<GroupView>,
    key: BlockKey,
)
    requires
        starts_differ(groups),
        forall|i: int|
            0 <= i < groups.len() ==> is_char_boundary(
                encode_utf8(text),
                (#[trigger] groups[i]).start,
            ),
        record.reformatted + groups.len() <= usize::MAX,
    ensures
        ({
            let after = record_after(record, file, text, groups);
            &&& after.applied == record.applied
            &&& after.conflicts == record.conflicts
            &&& after.last_file == record.last_file
            &&& after.reformatted == record.reformatted + groups.filter(
                |g: GroupView|
                    to_change(record.edits, file, encode_utf8(text), g) && items_at(
                        record.edits,
                        (file, g.start),
                    ).len() == 0,
            ).len()
            &&& items_at(after.edits, key) == if exists|i: int|
                0 <= i < groups.len() && key == (file, (#[trigger] groups[i]).start) {
                Seq::<ValueEditView>::empty()
            } else {
                items_at(record.edits, key)
            }
        }),
{
    law_every_changed_block_is_rewritten(record, file, encode_utf8(text), groups);
    law_edits_are_used_once(record, file, encode_utf8(text), groups, key);
    let after = record_after(record, file, text, groups);
    if items_at(after.edits, key).len() == 0 {
        assert(items_at(after.edits, key) =~= Seq::<ValueEditView>::empty());
    }
}

/// A source is left alone, and said not to fit, where one of its blocks does not start
/// at a character of it.
pub proof fn law_no_room_for_a_block(
    record: FixRecordView,
    file: Seq<char>,
    text: Seq<char>,
    groups: Seq<GroupView>,
    i: int,
)
    requires
        0 <= i < groups.len(),
        !is_char_boundary(encode_utf8(text), groups[i].start),
    ensures
        source_rewrite(record, file, text, groups) is Misfit,
{
    lemma_no_room(source_notes(record), file, encode_utf8(text), groups, i);
}

proof fn lemma_no_room(
    notes: RewriteNotes,
    file: Seq<char>,
    bytes: Seq<u8>,
    groups: Seq<GroupView>,
    i: int,
)
    requires
        0 <= i < groups.len(),
        !is_char_boundary(bytes, groups[i].start),
    ensures
        !rewritten_all(notes, file, bytes, groups).fits,
    decreases groups.len(),
{
    let rest = groups.drop_last();
    if i < rest.len() {
        assert(rest[i] == groups[i]);
        lemma_no_room(notes, file, bytes, rest, i);
    }
}

/// A filtered list is no longer than the list.
proof fn lemma_filter_shorter<T>(list: Seq<T>, keep: spec_fn(T) -> bool)
    ensures
        list.filter(keep).len() <= list.len(),
    decreases list.len(),
{
    reveal(Seq::filter);
    if list.len() > 0 {
        lemma_filter_shorter(list.drop_last(), keep);
    }
}

/// A text with the lists of some blocks, which stand one after the other, replaced
/// by others: the lists stand in their places, and what lies between them is that
/// of the text.
pub open spec fn woven(bytes: Seq<u8>, groups: Seq<GroupView>, lists: Seq<Seq<u8>>) -> Seq<u8>
    decreases groups.len(),
{
    if groups.len() == 0 {
        bytes
    } else {
        woven(bytes.take(groups.last().start), groups.drop_last(), lists.drop_last())
            + lists.last() + bytes.skip(groups.last().end)
    }
}

/// What the list of a block reads behind a fix: what it should where it is to
/// change, else what it read before.
pub open spec fn list_after(
    edits: Map<BlockKey, Seq<ValueEditView>>,
    file: Seq<char>,
    bytes: Seq<u8>,
    group: GroupView,
) -> Seq<u8> {
    if to_change(edits, file, bytes, group) {
        encode_utf8(fixed_list(bytes, group, items_at(edits, (file, group.start))))
    } else {
        bytes.subrange(group.start, group.end)
    }
}

pub open spec fn lists_after(
    edits: Map<BlockKey, Seq<ValueEditView>>,
    file: Seq<char>,
    bytes: Seq<u8>,
    groups: Seq<GroupView>,
) -> Seq<Seq<u8>> {
    groups.map_values(|g: GroupView| list_after(edits, file, bytes, g))
}

proof fn lemma_woven(
    record: FixRecordView,
    file: Seq<char>,
    bytes: Seq<u8>,
    groups: Seq<GroupView>,
    upto: int,
)
    requires
        valid_utf8(bytes),
        lists_apart(bytes, groups),
        0 <= upto <= bytes.len(),
        groups.len() > 0 ==> groups.last().end <= upto,
    ensures
        ({
            let splices = rewritten_all(source_notes(record), file, bytes, groups).splices;
            &&& one_after_another(bytes, splices)
            &&& splices.len() > 0 ==> splices.last().end <= upto
            &&& rebuilt(bytes, last_first(splices), upto) == woven(
                bytes.take(upto),
                groups,
                lists_after(record.edits, file, bytes, groups),
            )
        }),
    decreases groups.len(),
{
    let edits = record.edits;
    let notes = source_notes(record);
    lemma_fix_in_order(notes, file, bytes, groups);
    let splices = rewritten_all(notes, file, bytes, groups).splices;
    let lists = lists_after(edits, file, bytes, groups);
    lemma_last_first_turned(splices);
    if groups.len() == 0 {
        assert(last_first(splices).len() == 0);
    } else {
        let rest = groups.drop_last();
        let last = groups.last();
        let n = groups.len() - 1;
        assert(groups[n] == last);
        assert(replaceable(bytes, groups[n].start, groups[n].end));
        lemma_boundary_in_bounds(bytes, last.start);
        lemma_boundary_in_bounds(bytes, last.end);
        assert(lists_apart(bytes, rest)) by {
            assert forall|i: int| 0 <= i < rest.len() implies replaceable(
                bytes,
                (#[trigger] rest[i]).start,
                rest[i].end,
            ) by {
                assert(rest[i] == groups[i]);
            }
            assert forall|i: int, j: int| 0 <= i < j < rest.len() implies (
            #[trigger] rest[i]).start < (#[trigger] rest[j]).start && rest[i].end
                <= rest[j].start by {
                assert(rest[i] == groups[i] && rest[j] == groups[j]);
            }
        }
        if rest.len() > 0 {
            assert(rest.last() == groups[n - 1]);
            assert(groups[n - 1].end <= groups[n].start);
        }
        lemma_woven(record, file, bytes, rest, last.start);
        let before = rewritten_all(notes, file, bytes, rest).splices;
        lemma_last_first_turned(before);
        let key = (file, last.start);
        assert forall|i: int| 0 <= i < rest.len() implies (file, (#[trigger] rest[i]).start)
            != key by {
            assert(rest[i] == groups[i]);
            assert(groups[i].start < groups[n].start);
        }
        lemma_edits_wait(notes, file, bytes, rest, key);
        lemma_fix_in_order(notes, file, bytes, rest);
        assert(lists.drop_last() =~= lists_after(edits, file, bytes, rest));
        assert(lists.last() == list_after(edits, file, bytes, last));
        assert(bytes.take(upto).take(last.start) =~= bytes.take(last.start));
        assert(bytes.take(upto).skip(last.end) =~= bytes.subrange(last.end, upto));
        let inner = rebuilt(bytes, last_first(before), last.start);
        if to_change(edits, file, bytes, last) {
            let splice = list_splice(edits, file, bytes, last);
            assert(splices == before.push(splice));
            assert forall|a: int| 0 <= a < before.len() implies last_first(splices).drop_first()[a]
                == last_first(before)[a] by {
                assert(last_first(splices).drop_first()[a] == last_first(splices)[a + 1]);
                assert(splices[before.len() - 1 - a] == before[before.len() - 1 - a]);
            }
            assert(last_first(splices).drop_first() =~= last_first(before));
            assert(last_first(splices)[0] == splice);
        } else {
            assert(splices == before);
            if before.len() > 0 {
                assert(last_first(before)[0] == before.last());
                assert(replaceable(
                    bytes,
                    before[before.len() - 1].start,
                    before[before.len() - 1].end,
                ));
                lemma_boundary_in_bounds(bytes, before.last().end);
            }
            lemma_rebuilt_upto(bytes, last_first(before), last.start, upto);
            assert(bytes.subrange(last.start, upto) =~= bytes.subrange(last.start, last.end)
                + bytes.subrange(last.end, upto));
            assert(inner + bytes.subrange(last.start, upto) =~= inner + bytes.subrange(
                last.start,
                last.end,
            ) + bytes.subrange(last.end, upto));
        }
    }
}

/// A fixed source has the list that it should in the place of every block that is
/// to change, and is the same everywhere else; where no block is to change it is
/// kept.
pub proof fn law_fixed_lists_stand_in_the_source(
    record: FixRecordView,
    file: Seq<char>,
    text: Seq<char>,
    groups: Seq<GroupView>,
)
    requires
        lists_apart(encode_utf8(text), groups),
    ensures
        ({
            let bytes = encode_utf8(text);
            source_rewrite(record, file, text, groups) == if exists|i: int|
                0 <= i < groups.len() && to_change(
                    record.edits,
                    file,
                    bytes,
                    #[trigger] groups[i],
                ) {
                RewriteView::Write(
                    woven(bytes, groups, lists_after(record.edits, file, bytes, groups)),
                )
            } else {
                RewriteView::Keep
            }
        }),
{
    let bytes = encode_utf8(text);
    encode_utf8_valid_utf8(text);
    law_fix_keeps_the_rest(record, file, text, groups);
    let splices = rewritten_all(source_notes(record), file, bytes, groups).splices;
    assert(starts_differ(groups)) by {
        assert forall|i: int, j: int| 0 <= i < j < groups.len() implies (
        #[trigger] groups[i]).start != (#[trigger] groups[j]).start by {
            assert(groups[i].start < groups[j].start);
        }
    }
    assert forall|i: int| 0 <= i < groups.len() implies is_char_boundary(
        bytes,
        (#[trigger] groups[i]).start,
    ) by {
        assert(replaceable(bytes, groups[i].start, groups[i].end));
    }
    law_every_changed_block_is_rewritten(record, file, bytes, groups);
    if groups.len() > 0 {
        let n = groups.len() - 1;
        assert(replaceable(bytes, groups[n].start, groups[n].end));
        lemma_boundary_in_bounds(bytes, groups[n].end);
    }
    lemma_woven(record, file, bytes, groups, bytes.len() as int);
    assert(bytes.take(bytes.len() as int) =~= bytes);
    let changing = |g: GroupView| to_change(record.edits, file, bytes, g);
    if splices.len() > 0 {
        let kept = groups.filter(changing);
        assert(kept.len() > 0);
        groups.lemma_filter_contains_rev(changing, kept[0]);
        let i = choose|i: int| 0 <= i < groups.len() && groups[i] == kept[0];
        groups.lemma_filter_pred(changing, 0);
        assert(to_change(record.edits, file, bytes, groups[i]));
    }
}

} // verus!
