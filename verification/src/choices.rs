//! What a resolution asks and what becomes of the answers: every conflict that
//! the server reported is asked about, and each choice reaches its block.
use crate::blocks::{items_at, BlockKey};
use crate::conflicts::{conflict_key, in_order, SeenView};
use crate::edits::SpliceView;
use crate::finding::{FindingView, KindView};
use crate::groups::GroupView;
use crate::layout::{formatted, indent_at, lemma_words_single, plain_names};
use crate::resolve::{
    answered, asking, block_closed, conflict_noted, conflicts_noted, fresh_dialog, kept,
    literal_kept, names_left, pairs_left, questions_of, settled, talked, Answer, ConflictsView,
    DialogView, PairView, QuestionView,
};
use crate::rewrites::starts_differ;
use crate::tallies::{grown, law_same_conflict, lemma_names_apart};
use crate::text::words;
use vstd::prelude::*;
use vstd::string::*;
use vstd::utf8::*;

verus! {

/// Names that do not hold the character that keeps names apart.
pub open spec fn names_told_apart(pair: PairView) -> bool {
    !pair.0.contains('\0') && !pair.1.contains('\0')
}

/// A finding reports a conflict of two classes in a block.
pub open spec fn reports_conflict(
    finding: FindingView,
    chunk: Seq<GroupView>,
    key: BlockKey,
    pair: PairView,
) -> bool {
    finding.line < chunk.len() && (
        chunk[finding.line as int].file,
        chunk[finding.line as int].start,
    ) == key && match finding.kind {
        KindView::Fatal(Some(names)) => in_order(names.0, names.1) == pair,
        _ => false,
    }
}

/// The names of every conflict among some findings can be told apart.
pub open spec fn findings_told_apart(findings: Seq<FindingView>) -> bool {
    forall|i: int|
        0 <= i < findings.len() ==> match (#[trigger] findings[i]).kind {
            KindView::Fatal(Some(names)) => names_told_apart(names),
            _ => true,
        }
}

/// What was seen is recorded.
pub open spec fn seen_is_recorded(record: ConflictsView) -> bool {
    &&& forall|entry: SeenView|
        #[trigger] record.seen.contains(entry) ==> exists|pair: PairView|
            #[trigger] items_at(record.pairs, (entry.0, entry.1)).contains(pair) && pair.0 + "\0"@
                + pair.1 == entry.2
    &&& forall|key: BlockKey, pair: PairView| #[trigger]
        items_at(record.pairs, key).contains(pair) ==> names_told_apart(pair)
}

/// Before anything is noted, what was seen is recorded.
pub proof fn law_nothing_seen()
    ensures
        seen_is_recorded(ConflictsView { pairs: Map::empty(), seen: Seq::empty() }),
{
}

proof fn lemma_contains_push<T>(list: Seq<T>, item: T)
    ensures
        forall|x: T| #[trigger] list.push(item).contains(x) <==> list.contains(x) || x == item,
{
    let all = list.push(item);
    assert forall|x: T| #[trigger] all.contains(x) <==> list.contains(x) || x == item by {
        assert(all[all.len() - 1] == item);
        if list.contains(x) {
            let i = choose|i: int| 0 <= i < list.len() && list[i] == x;
            assert(all[i] == x);
        }
    }
}

/// Every conflict that the findings of a chunk report in one of its blocks is
/// recorded for that block, and nothing else is.
pub proof fn law_every_conflict_is_recorded(
    record: ConflictsView,
    chunk: Seq<GroupView>,
    findings: Seq<FindingView>,
)
    requires
        seen_is_recorded(record),
        findings_told_apart(findings),
    ensures
        seen_is_recorded(conflicts_noted(record, chunk, findings)),
        forall|key: BlockKey, pair: PairView| #[trigger]
            items_at(conflicts_noted(record, chunk, findings).pairs, key).contains(pair)
                <==> items_at(record.pairs, key).contains(pair) || exists|i: int|
                0 <= i < findings.len() && reports_conflict(
                    #[trigger] findings[i],
                    chunk,
                    key,
                    pair,
                ),
    decreases findings.len(),
{
    if findings.len() > 0 {
        let rest = findings.drop_last();
        let last = findings.last();
        let n = findings.len() - 1;
        assert(findings[n] == last);
        assert forall|i: int| 0 <= i < rest.len() implies match (#[trigger] rest[i]).kind {
            KindView::Fatal(Some(names)) => names_told_apart(names),
            _ => true,
        } by {
            assert(rest[i] == findings[i]);
        }
        law_every_conflict_is_recorded(record, chunk, rest);
        let before = conflicts_noted(record, chunk, rest);
        let after = conflicts_noted(record, chunk, findings);
        assert(after == conflict_noted(before, chunk, last));
        lemma_one_conflict(before, chunk, last);
        assert forall|key: BlockKey, pair: PairView| #[trigger]
            items_at(after.pairs, key).contains(pair) <==> items_at(record.pairs, key).contains(
                pair,
            ) || exists|i: int|
                0 <= i < findings.len() && reports_conflict(
                    #[trigger] findings[i],
                    chunk,
                    key,
                    pair,
                ) by {
            if items_at(before.pairs, key).contains(pair) && !items_at(record.pairs, key).contains(
                pair,
            ) {
                let i = choose|i: int|
                    0 <= i < rest.len() && reports_conflict(#[trigger] rest[i], chunk, key, pair);
                assert(reports_conflict(findings[i], chunk, key, pair));
            }
            if reports_conflict(last, chunk, key, pair) {
                assert(reports_conflict(findings[n], chunk, key, pair));
            }
            if exists|i: int|
                0 <= i < findings.len() && reports_conflict(
                    #[trigger] findings[i],
                    chunk,
                    key,
                    pair,
                ) {
                let i = choose|i: int|
                    0 <= i < findings.len() && reports_conflict(
                        #[trigger] findings[i],
                        chunk,
                        key,
                        pair,
                    );
                if i < rest.len() {
                    assert(reports_conflict(rest[i], chunk, key, pair));
                }
            }
        }
    }
}

proof fn lemma_one_conflict(before: ConflictsView, chunk: Seq<GroupView>, finding: FindingView)
    requires
        seen_is_recorded(before),
        match finding.kind {
            KindView::Fatal(Some(names)) => names_told_apart(names),
            _ => true,
        },
    ensures
        seen_is_recorded(conflict_noted(before, chunk, finding)),
        forall|key: BlockKey, pair: PairView| #[trigger]
            items_at(conflict_noted(before, chunk, finding).pairs, key).contains(pair)
                <==> items_at(before.pairs, key).contains(pair) || reports_conflict(
                finding,
                chunk,
                key,
                pair,
            ),
{
    let after = conflict_noted(before, chunk, finding);
    if let KindView::Fatal(Some(names)) = finding.kind {
        if finding.line < chunk.len() {
            let group = chunk[finding.line as int];
            let here = (group.file, group.start);
            let ordered = in_order(names.0, names.1);
            let entry = (group.file, group.start, conflict_key(names.0, names.1));
            law_same_conflict(names.0, names.1, names.0, names.1);
            assert(names_told_apart(ordered));
            if before.seen.contains(entry) {
                let pair = choose|pair: PairView|
                    #[trigger] items_at(before.pairs, (entry.0, entry.1)).contains(pair) && pair.0
                        + "\0"@ + pair.1 == entry.2;
                lemma_names_apart(pair.0, pair.1, ordered.0, ordered.1);
                assert(items_at(before.pairs, here).contains(ordered));
            } else {
                let list = items_at(before.pairs, here);
                lemma_contains_push(list, ordered);
                lemma_contains_push(before.seen, entry);
                assert(items_at(after.pairs, here) == list.push(ordered));
                assert forall|key: BlockKey| key != here implies items_at(after.pairs, key)
                    == items_at(before.pairs, key) by {}
                assert forall|key: BlockKey, pair: PairView| #[trigger]
                    items_at(after.pairs, key).contains(pair) <==> items_at(
                        before.pairs,
                        key,
                    ).contains(pair) || reports_conflict(finding, chunk, key, pair) by {
                    if key != here {
                        assert(items_at(after.pairs, key) == items_at(before.pairs, key));
                    }
                }
                assert forall|seen: SeenView| #[trigger] after.seen.contains(seen) implies exists|
                    pair: PairView,
                |
                    #[trigger] items_at(after.pairs, (seen.0, seen.1)).contains(pair) && pair.0
                        + "\0"@ + pair.1 == seen.2 by {
                    if seen == entry {
                        assert(items_at(after.pairs, (seen.0, seen.1)).contains(ordered));
                        assert(ordered.0 + "\0"@ + ordered.1 == seen.2);
                    } else {
                        assert(before.seen.contains(seen));
                        let pair = choose|pair: PairView|
                            #[trigger] items_at(before.pairs, (seen.0, seen.1)).contains(pair)
                                && pair.0 + "\0"@ + pair.1 == seen.2;
                        assert(items_at(after.pairs, (seen.0, seen.1)).contains(pair));
                    }
                }
            }
        }
    }
}

/// Each block of a source is asked about with all that is recorded of it; what is
/// recorded of other blocks stays.
pub proof fn law_each_block_has_its_conflicts(
    pairs: Map<BlockKey, Seq<PairView>>,
    file: Seq<char>,
    groups: Seq<GroupView>,
)
    requires
        starts_differ(groups),
    ensures
        questions_of(pairs, file, groups) == groups.map_values(
            |g: GroupView| QuestionView { group: g, pairs: items_at(pairs, (file, g.start)) },
        ),
        forall|key: BlockKey|
            #![trigger items_at(pairs_left(pairs, file, groups), key)]
            items_at(pairs_left(pairs, file, groups), key) == if exists|i: int|
                0 <= i < groups.len() && key == (file, (#[trigger] groups[i]).start) {
                Seq::<PairView>::empty()
            } else {
                items_at(pairs, key)
            },
    decreases groups.len(),
{
    if groups.len() > 0 {
        let rest = groups.drop_last();
        let last = groups.last();
        let n = groups.len() - 1;
        assert(groups[n] == last);
        assert forall|i: int, j: int| 0 <= i < j < rest.len() implies (#[trigger] rest[i]).start
            != (#[trigger] rest[j]).start by {
            assert(rest[i] == groups[i] && rest[j] == groups[j]);
        }
        law_each_block_has_its_conflicts(pairs, file, rest);
        let left = pairs_left(pairs, file, rest);
        assert(items_at(left, (file, last.start)) == items_at(pairs, (file, last.start))) by {
            if exists|i: int|
                0 <= i < rest.len() && (file, last.start) == (file, (#[trigger] rest[i]).start) {
                let i = choose|i: int|
                    0 <= i < rest.len() && (file, last.start) == (file, (#[trigger] rest[i]).start);
                assert(rest[i] == groups[i]);
                assert(groups[i].start != groups[n].start);
            }
        }
        assert forall|key: BlockKey|
            #![trigger items_at(pairs_left(pairs, file, groups), key)]
            items_at(pairs_left(pairs, file, groups), key) == if exists|i: int|
                0 <= i < groups.len() && key == (file, (#[trigger] groups[i]).start) {
                Seq::<PairView>::empty()
            } else {
                items_at(pairs, key)
            } by {
            let now = pairs_left(pairs, file, groups);
            assert(now == left.remove((file, last.start)));
            if key == (file, last.start) {
                assert(key == (file, groups[n].start));
            } else {
                assert(items_at(now, key) == items_at(left, key));
                if exists|i: int|
                    0 <= i < groups.len() && key == (file, (#[trigger] groups[i]).start) {
                    let i = choose|i: int|
                        0 <= i < groups.len() && key == (file, (#[trigger] groups[i]).start);
                    assert(rest[i] == groups[i]);
                } else {
                    assert forall|i: int| 0 <= i < rest.len() implies key != (
                        file,
                        (#[trigger] rest[i]).start,
                    ) by {
                        assert(rest[i] == groups[i]);
                    }
                }
            }
        }
    }
    assert(questions_of(pairs, file, groups) =~= groups.map_values(
        |g: GroupView| QuestionView { group: g, pairs: items_at(pairs, (file, g.start)) },
    ));
}

/// A class of a conflict is to go.
pub open spec fn one_gone(pair: PairView, removed: Seq<Seq<char>>) -> bool {
    removed.contains(pair.0) || removed.contains(pair.1)
}

/// The replacement of a block's list by the list without some classes.
pub open spec fn choice_splice(
    text: Seq<char>,
    questions: Seq<QuestionView>,
    block: int,
    gone: Seq<Seq<char>>,
) -> SpliceView {
    let group = questions[block].group;
    SpliceView {
        start: group.start,
        end: group.end,
        text: formatted(
            kept(group.classes, gone),
            indent_at(encode_utf8(text), group.start),
        ),
    }
}

/// A dialog stands within its blocks, each of which starts at a character.
pub open spec fn dialog_fits(dialog: DialogView) -> bool {
    &&& 0 <= dialog.block
    &&& 0 <= dialog.pair
    &&& forall|b: int|
        0 <= b < dialog.questions.len() ==> is_char_boundary(
            encode_utf8(dialog.text),
            (#[trigger] dialog.questions[b]).group.start,
        )
}

/// What a block that is done with adds to the replacements: where classes are to
/// go, the list without them.
pub open spec fn block_done(before: DialogView, after: DialogView) -> bool {
    if before.removed.len() == 0 {
        after.splices == before.splices && after.count == before.count
    } else {
        &&& after.splices == before.splices.push(
            choice_splice(before.text, before.questions, before.block, before.removed),
        )
        &&& grown(after.count, before.count, before.removed.len())
    }
}

/// How a dialog goes on: no conflict is passed over of which both classes are
/// still kept. It stays in its block as long as there is one to ask about, and
/// then goes on to the next block that has conflicts.
pub open spec fn goes_on(before: DialogView, after: DialogView) -> bool {
    &&& after.text == before.text && after.label == before.label && after.questions
        == before.questions
    &&& if after.block == before.block {
        &&& before.pair <= after.pair
        &&& after.removed == before.removed && after.splices == before.splices && after.count
            == before.count
        &&& forall|p: int|
            before.pair <= p < after.pair ==> one_gone(
                #[trigger] before.questions[before.block].pairs[p],
                before.removed,
            )
    } else {
        &&& before.block < after.block <= before.questions.len()
        &&& after.pair == 0 && after.removed.len() == 0
        &&& block_done(before, after)
        &&& forall|p: int|
            before.pair <= p < before.questions[before.block].pairs.len() ==> one_gone(
                #[trigger] before.questions[before.block].pairs[p],
                before.removed,
            )
        &&& forall|b: int|
            before.block < b < after.block ==> (#[trigger] before.questions[b]).pairs.len() == 0
    }
}

/// No conflict is passed over of which both classes are still kept, and the
/// replacements are those of the blocks that are done with.
pub proof fn law_no_conflict_is_passed_over(dialog: DialogView)
    requires
        dialog_fits(dialog),
        dialog.block < dialog.questions.len(),
        dialog.count <= usize::MAX,
    ensures
        goes_on(dialog, settled(dialog)),
        settled(dialog).fits == dialog.fits,
        asking(settled(dialog)) || settled(dialog).block == dialog.questions.len(),
        asking(settled(dialog)) ==> !one_gone(
            settled(dialog).questions[settled(dialog).block].pairs[settled(dialog).pair],
            settled(dialog).removed,
        ),
    decreases
            dialog.questions.len() - dialog.block,
            dialog.questions[dialog.block].pairs.len() - dialog.pair,
{
    let pairs = dialog.questions[dialog.block].pairs;
    let end = settled(dialog);
    assert(is_char_boundary(
        encode_utf8(dialog.text),
        dialog.questions[dialog.block].group.start,
    ));
    if dialog.pair >= pairs.len() {
        let next = block_closed(dialog);
        assert(block_done(dialog, next));
        if next.block < next.questions.len() {
            assert(dialog_fits(next)) by {
                assert forall|b: int| 0 <= b < next.questions.len() implies is_char_boundary(
                    encode_utf8(next.text),
                    (#[trigger] next.questions[b]).group.start,
                ) by {
                    assert(is_char_boundary(
                        encode_utf8(dialog.text),
                        dialog.questions[b].group.start,
                    ));
                }
            }
            law_no_conflict_is_passed_over(next);
            assert(end == settled(next));
            if end.block == next.block {
                assert(end.pair == 0) by {
                    if end.pair > 0 {
                        assert(one_gone(next.questions[next.block].pairs[0], next.removed));
                    }
                }
            } else {
                assert(next.questions[next.block].pairs.len() == 0) by {
                    if next.questions[next.block].pairs.len() > 0 {
                        assert(one_gone(next.questions[next.block].pairs[0], next.removed));
                    }
                }
            }
        } else {
            assert(settled(next) == next);
        }
    } else if one_gone(pairs[dialog.pair], dialog.removed) {
        let next = DialogView { pair: dialog.pair + 1, ..dialog };
        assert(dialog_fits(next)) by {
            assert forall|b: int| 0 <= b < next.questions.len() implies is_char_boundary(
                encode_utf8(next.text),
                (#[trigger] next.questions[b]).group.start,
            ) by {
                assert(is_char_boundary(
                    encode_utf8(dialog.text),
                    dialog.questions[b].group.start,
                ));
            }
        }
        law_no_conflict_is_passed_over(next);
        assert(end == settled(next));
        assert forall|p: int|
            dialog.pair <= p < (if end.block == dialog.block {
                end.pair
            } else {
                pairs.len() as int
            }) implies one_gone(#[trigger] dialog.questions[dialog.block].pairs[p], dialog.removed) by {
            if p > dialog.pair {
                assert(one_gone(next.questions[next.block].pairs[p], next.removed));
            }
        }
    }
}

/// What an answer to a conflict does: the class that is not kept goes, a conflict
/// that is skipped leaves both, and the dialog goes on behind it. Whoever quits is
/// asked nothing more, and what was chosen in this block still holds.
pub proof fn law_a_choice_is_applied(dialog: DialogView)
    requires
        dialog_fits(dialog),
        asking(dialog),
        dialog.count <= usize::MAX,
    ensures
        ({
            let pair = dialog.questions[dialog.block].pairs[dialog.pair];
            let next = DialogView { pair: dialog.pair + 1, ..dialog };
            let stopped = answered(dialog, Answer::Quit);
            &&& goes_on(
                DialogView { removed: dialog.removed.push(pair.1), ..next },
                answered(dialog, Answer::KeepFirst),
            )
            &&& goes_on(
                DialogView { removed: dialog.removed.push(pair.0), ..next },
                answered(dialog, Answer::KeepSecond),
            )
            &&& goes_on(next, answered(dialog, Answer::Skip))
            &&& answered(dialog, Answer::Again) == dialog
            &&& !asking(stopped)
            &&& block_done(dialog, stopped)
            &&& stopped.text == dialog.text
            &&& stopped.fits == dialog.fits
        }),
{
    let pair = dialog.questions[dialog.block].pairs[dialog.pair];
    let next = DialogView { pair: dialog.pair + 1, ..dialog };
    let first = DialogView { removed: dialog.removed.push(pair.1), ..next };
    let second = DialogView { removed: dialog.removed.push(pair.0), ..next };
    lemma_fits_same(dialog, next);
    lemma_fits_same(dialog, first);
    lemma_fits_same(dialog, second);
    law_no_conflict_is_passed_over(next);
    law_no_conflict_is_passed_over(first);
    law_no_conflict_is_passed_over(second);
    assert(is_char_boundary(
        encode_utf8(dialog.text),
        dialog.questions[dialog.block].group.start,
    ));
}

proof fn lemma_fits_same(a: DialogView, b: DialogView)
    requires
        dialog_fits(a),
        b.text == a.text,
        b.questions == a.questions,
        0 <= b.block,
        0 <= b.pair,
    ensures
        dialog_fits(b),
{
    assert forall|k: int| 0 <= k < b.questions.len() implies is_char_boundary(
        encode_utf8(b.text),
        (#[trigger] b.questions[k]).group.start,
    ) by {
        assert(is_char_boundary(encode_utf8(a.text), a.questions[k].group.start));
    }
}

/// A name is that of a class in one of some conflicts.
pub open spec fn in_conflict(pairs: Seq<PairView>, upto: int, name: Seq<char>) -> bool {
    exists|p: int| 0 <= p < upto && ((#[trigger] pairs[p]).0 == name || pairs[p].1 == name)
}

/// Some classes of a block's conflicts that are to go, so that no conflict is left
/// open: each is a class of one of the conflicts, and each conflict loses one.
pub open spec fn settles_block(pairs: Seq<PairView>, upto: int, gone: Seq<Seq<char>>) -> bool {
    &&& forall|p: int| 0 <= p < upto ==> one_gone(#[trigger] pairs[p], gone)
    &&& forall|k: int| 0 <= k < gone.len() ==> in_conflict(pairs, upto, #[trigger] gone[k])
}

/// A replacement settles the conflicts of a block.
pub open spec fn settles(
    text: Seq<char>,
    questions: Seq<QuestionView>,
    block: int,
    splice: SpliceView,
) -> bool {
    exists|gone: Seq<Seq<char>>|
        splice == #[trigger] choice_splice(text, questions, block, gone) && gone.len() > 0
            && settles_block(questions[block].pairs, questions[block].pairs.len() as int, gone)
}

/// One of some replacements settles the conflicts of a block.
pub open spec fn block_settled(
    text: Seq<char>,
    questions: Seq<QuestionView>,
    splices: Seq<SpliceView>,
    block: int,
) -> bool {
    exists|k: int|
        0 <= k < splices.len() && settles(text, questions, block, #[trigger] splices[k])
}

/// A replacement settles the conflicts of one of the first blocks, which has some.
pub open spec fn settles_some(
    text: Seq<char>,
    questions: Seq<QuestionView>,
    upto: int,
    splice: SpliceView,
) -> bool {
    exists|b: int|
        0 <= b < upto && questions[b].pairs.len() > 0 && #[trigger] settles(
            text,
            questions,
            b,
            splice,
        )
}

/// The first blocks are settled: each that has conflicts has its replacement, and
/// there is no other.
pub open spec fn blocks_settled(
    text: Seq<char>,
    questions: Seq<QuestionView>,
    splices: Seq<SpliceView>,
    upto: int,
) -> bool {
    &&& forall|b: int|
        0 <= b < upto && questions[b].pairs.len() > 0 ==> #[trigger] block_settled(
            text,
            questions,
            splices,
            b,
        )
    &&& forall|k: int|
        0 <= k < splices.len() ==> settles_some(text, questions, upto, #[trigger] splices[k])
}

/// Every conflict before the place where a dialog stands is settled.
pub open spec fn settled_so_far(dialog: DialogView) -> bool {
    &&& dialog_fits(dialog)
    &&& dialog.fits
    &&& dialog.block <= dialog.questions.len()
    &&& dialog.block == dialog.questions.len() ==> dialog.removed.len() == 0
    &&& dialog.block < dialog.questions.len() ==> dialog.pair
        <= dialog.questions[dialog.block].pairs.len() && settles_block(
        dialog.questions[dialog.block].pairs,
        dialog.pair,
        dialog.removed,
    )
    &&& blocks_settled(dialog.text, dialog.questions, dialog.splices, dialog.block)
}

proof fn lemma_one_more_block(
    text: Seq<char>,
    questions: Seq<QuestionView>,
    splices: Seq<SpliceView>,
    at: int,
    gone: Seq<Seq<char>>,
)
    requires
        0 <= at < questions.len(),
        blocks_settled(text, questions, splices, at),
        settles_block(questions[at].pairs, questions[at].pairs.len() as int, gone),
        gone.len() > 0,
        questions[at].pairs.len() > 0,
    ensures
        blocks_settled(
            text,
            questions,
            splices.push(choice_splice(text, questions, at, gone)),
            at + 1,
        ),
{
    let splice = choice_splice(text, questions, at, gone);
    let after = splices.push(splice);
    let n = splices.len() as int;
    assert(settles(text, questions, at, splice));
    assert(after[n] == splice);
    assert forall|b: int| 0 <= b < at + 1 && questions[b].pairs.len() > 0 implies #[trigger]
        block_settled(text, questions, after, b) by {
        if b < at {
            assert(block_settled(text, questions, splices, b));
            let k = choose|k: int|
                0 <= k < splices.len() && settles(text, questions, b, #[trigger] splices[k]);
            assert(after[k] == splices[k]);
            assert(settles(text, questions, b, after[k]));
        } else {
            assert(settles(text, questions, b, after[n]));
        }
    }
    assert forall|k: int| 0 <= k < after.len() implies settles_some(
        text,
        questions,
        at + 1,
        #[trigger] after[k],
    ) by {
        if k < n {
            assert(after[k] == splices[k]);
            assert(settles_some(text, questions, at, splices[k]));
            let b = choose|b: int|
                0 <= b < at && questions[b].pairs.len() > 0 && #[trigger] settles(
                    text,
                    questions,
                    b,
                    splices[k],
                );
            assert(settles(text, questions, b, after[k]));
        } else {
            assert(settles(text, questions, at, after[k]));
        }
    }
}

proof fn lemma_quiet_block(
    text: Seq<char>,
    questions: Seq<QuestionView>,
    splices: Seq<SpliceView>,
    at: int,
)
    requires
        0 <= at < questions.len(),
        blocks_settled(text, questions, splices, at),
        questions[at].pairs.len() == 0,
    ensures
        blocks_settled(text, questions, splices, at + 1),
{
    assert forall|k: int| 0 <= k < splices.len() implies settles_some(
        text,
        questions,
        at + 1,
        #[trigger] splices[k],
    ) by {
        assert(settles_some(text, questions, at, splices[k]));
        let b = choose|b: int|
            0 <= b < at && questions[b].pairs.len() > 0 && #[trigger] settles(
                text,
                questions,
                b,
                splices[k],
            );
        assert(settles(text, questions, b, splices[k]));
    }
}

proof fn lemma_close_settles(dialog: DialogView)
    requires
        settled_so_far(dialog),
        dialog.block < dialog.questions.len(),
        dialog.pair == dialog.questions[dialog.block].pairs.len(),
    ensures
        settled_so_far(block_closed(dialog)),
{
    let at = dialog.block;
    let pairs = dialog.questions[at].pairs;
    let end = block_closed(dialog);
    lemma_fits_same(dialog, end);
    assert(is_char_boundary(encode_utf8(dialog.text), dialog.questions[at].group.start));
    if dialog.removed.len() == 0 {
        assert(pairs.len() == 0) by {
            if pairs.len() > 0 {
                assert(one_gone(pairs[0], dialog.removed));
            }
        }
        lemma_quiet_block(dialog.text, dialog.questions, dialog.splices, at);
    } else {
        assert(in_conflict(pairs, dialog.pair, dialog.removed[0]));
        assert(pairs.len() > 0);
        lemma_one_more_block(
            dialog.text,
            dialog.questions,
            dialog.splices,
            at,
            dialog.removed,
        );
    }
    if end.block < end.questions.len() {
        assert(settles_block(end.questions[end.block].pairs, 0, end.removed));
    }
}

proof fn lemma_settled_settles(dialog: DialogView)
    requires
        settled_so_far(dialog),
    ensures
        settled_so_far(settled(dialog)),
        settled(dialog).text == dialog.text,
        settled(dialog).questions == dialog.questions,
    decreases
            dialog.questions.len() - dialog.block,
            dialog.questions[dialog.block].pairs.len() - dialog.pair,
{
    if dialog.block < dialog.questions.len() {
        let pairs = dialog.questions[dialog.block].pairs;
        if dialog.pair >= pairs.len() {
            lemma_close_settles(dialog);
            lemma_settled_settles(block_closed(dialog));
        } else if one_gone(pairs[dialog.pair], dialog.removed) {
            let next = DialogView { pair: dialog.pair + 1, ..dialog };
            lemma_step_settles(dialog, next);
            lemma_settled_settles(next);
        }
    }
}

proof fn lemma_settles_more(
    pairs: Seq<PairView>,
    at: int,
    removed: Seq<Seq<char>>,
    after: Seq<Seq<char>>,
)
    requires
        0 <= at < pairs.len(),
        settles_block(pairs, at, removed),
        (after == removed && one_gone(pairs[at], removed)) || after == removed.push(pairs[at].0)
            || after == removed.push(pairs[at].1),
    ensures
        settles_block(pairs, at + 1, after),
{
    if after.len() > removed.len() {
        lemma_contains_push(removed, after.last());
        assert(after == removed.push(after.last()));
    }
    assert forall|p: int| 0 <= p < at + 1 implies one_gone(#[trigger] pairs[p], after) by {
        if p < at {
            assert(one_gone(pairs[p], removed));
        }
    }
    assert forall|k: int| 0 <= k < after.len() implies in_conflict(
        pairs,
        at + 1,
        #[trigger] after[k],
    ) by {
        if k < removed.len() {
            assert(after[k] == removed[k]);
            assert(in_conflict(pairs, at, removed[k]));
            let p = choose|p: int|
                0 <= p < at && ((#[trigger] pairs[p]).0 == removed[k] || pairs[p].1 == removed[k]);
            assert(pairs[p].0 == after[k] || pairs[p].1 == after[k]);
        } else {
            assert(pairs[at].0 == after[k] || pairs[at].1 == after[k]);
        }
    }
}

/// One more conflict of a block is settled.
proof fn lemma_step_settles(dialog: DialogView, next: DialogView)
    requires
        settled_so_far(dialog),
        asking(dialog),
        next == (DialogView { pair: dialog.pair + 1, removed: next.removed, ..dialog }),
        ({
            let pair = dialog.questions[dialog.block].pairs[dialog.pair];
            ||| next.removed == dialog.removed && one_gone(pair, dialog.removed)
            ||| next.removed == dialog.removed.push(pair.0)
            ||| next.removed == dialog.removed.push(pair.1)
        }),
    ensures
        settled_so_far(next),
{
    lemma_fits_same(dialog, next);
    lemma_settles_more(
        dialog.questions[dialog.block].pairs,
        dialog.pair,
        dialog.removed,
        next.removed,
    );
}

/// Whoever picks a class each time has every conflict settled in the end: each
/// block that had conflicts gets its list without a class of each of them, only
/// classes of its conflicts go, and blocks without conflicts stay as they are.
pub proof fn law_every_conflict_is_settled(
    text: Seq<char>,
    label: Seq<char>,
    questions: Seq<QuestionView>,
    answers: Seq<Answer>,
)
    requires
        forall|b: int|
            0 <= b < questions.len() ==> is_char_boundary(
                encode_utf8(text),
                (#[trigger] questions[b]).group.start,
            ),
        forall|i: int|
            0 <= i < answers.len() ==> #[trigger] answers[i] == Answer::KeepFirst || answers[i]
                == Answer::KeepSecond,
    ensures
        ({
            let end = talked(settled(fresh_dialog(text, label, questions)), answers);
            &&& settled_so_far(end)
            &&& end.text == text
            &&& end.questions == questions
            &&& asking(end) || end.block == questions.len()
        }),
    decreases answers.len(),
{
    let start = fresh_dialog(text, label, questions);
    let end = talked(settled(start), answers);
    if answers.len() == 0 {
        if questions.len() > 0 {
            assert(settles_block(questions[0].pairs, 0, start.removed));
        }
        assert(settled_so_far(start));
        lemma_settled_settles(start);
        if questions.len() > 0 {
            law_no_conflict_is_passed_over(start);
        }
    } else {
        let rest = answers.drop_last();
        assert forall|i: int| 0 <= i < rest.len() implies #[trigger] rest[i] == Answer::KeepFirst
            || rest[i] == Answer::KeepSecond by {
            assert(rest[i] == answers[i]);
        }
        law_every_conflict_is_settled(text, label, questions, rest);
        let before = talked(settled(start), rest);
        assert(answers.last() == answers[answers.len() - 1]);
        if asking(before) {
            let pair = before.questions[before.block].pairs[before.pair];
            let first = DialogView {
                pair: before.pair + 1,
                removed: before.removed.push(pair.1),
                ..before
            };
            let second = DialogView {
                pair: before.pair + 1,
                removed: before.removed.push(pair.0),
                ..before
            };
            let next = if answers.last() == Answer::KeepFirst {
                first
            } else {
                second
            };
            lemma_step_settles(before, next);
            lemma_settled_settles(next);
            lemma_asking_or_done(next);
        }
    }
}

proof fn lemma_asking_or_done(dialog: DialogView)
    requires
        settled_so_far(dialog),
    ensures
        asking(settled(dialog)) || settled(dialog).block == dialog.questions.len(),
    decreases
            dialog.questions.len() - dialog.block,
            dialog.questions[dialog.block].pairs.len() - dialog.pair,
{
    if dialog.block < dialog.questions.len() {
        let pairs = dialog.questions[dialog.block].pairs;
        if dialog.pair >= pairs.len() {
            lemma_close_settles(dialog);
            lemma_asking_or_done(block_closed(dialog));
        } else if one_gone(pairs[dialog.pair], dialog.removed) {
            let next = DialogView { pair: dialog.pair + 1, ..dialog };
            lemma_step_settles(dialog, next);
            lemma_asking_or_done(next);
        }
    }
}

/// Of a list with one class in each literal exactly the others stay, in their
/// order.
pub proof fn law_kept_in_order(classes: Seq<Seq<char>>, removed: Seq<Seq<char>>)
    requires
        plain_names(classes),
    ensures
        kept(classes, removed) == classes.filter(|c: Seq<char>| !removed.contains(c)),
    decreases classes.len(),
{
    reveal(Seq::filter);
    if classes.len() == 0 {
        assert(kept(classes, removed) =~= Seq::<Seq<char>>::empty());
    } else {
        let rest = classes.drop_last();
        let last = classes.last();
        assert(classes[classes.len() - 1] == last);
        assert forall|i: int| 0 <= i < rest.len() implies (#[trigger] rest[i]).len() > 0
            && crate::text::word_length(rest[i]) == rest[i].len() by {
            assert(rest[i] == classes[i]);
        }
        law_kept_in_order(rest, removed);
        lemma_words_single(last);
        let one = seq![last];
        assert(words(last) == one);
        assert(one.drop_last() =~= Seq::<Seq<char>>::empty());
        assert(names_left(one.drop_last(), removed).len() == 0);
        if removed.contains(last) {
            assert(literal_kept(last, removed) is None);
        } else {
            assert(names_left(one, removed).len() == 1);
            assert(literal_kept(last, removed) == Some(last));
        }
    }
}

} // verus!
