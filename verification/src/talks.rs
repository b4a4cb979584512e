//! What the user is shown and asked, and what their answers mean.
use crate::check::{check_summary, issues, TallyView};
use crate::choices::law_each_block_has_its_conflicts;
use crate::fix::{fix_summary, FixRecordView, RewriteView};
use crate::groups::GroupView;
use crate::palette::{coloured, plain, shows_colours, PaletteView};
use crate::resolve::{
    answer_in, answer_text, answered, asking, block_closed, dialog_rewrite, fresh_dialog,
    question_text, questions_of, resolve_summary, run_answered, settled, source_dialog, talk,
    talk_begun, talked, with_dialog, without_source, Answer, DialogView, QuestionView, ResolveView,
    TalkView,
};
use crate::blocks::items_at;
use crate::paths::label_for;
use crate::rewrites::starts_differ;
use crate::tallies::grown;
use crate::text::{decimal, is_white};
use crate::wording::{all_white, law_trimmed};
use vstd::prelude::*;
use vstd::string::*;
use vstd::utf8::*;

verus! {

/// What a line answers, whatever white space stands round it: `1` and `2` name the
/// class to keep, `s` and an empty line skip, `q` quits, and so does the end of the
/// input; anything else is asked again.
pub proof fn law_what_a_line_answers(front: Seq<char>, word: Seq<char>, back: Seq<char>)
    requires
        all_white(front),
        all_white(back),
        word.len() > 0 ==> !is_white(word[0]) && !is_white(word.last()),
    ensures
        ({
            let line = Some(front + word + back);
            &&& word == seq!['1'] ==> answer_in(line) == Answer::KeepFirst
            &&& word == seq!['2'] ==> answer_in(line) == Answer::KeepSecond
            &&& word == seq!['s'] ==> answer_in(line) == Answer::Skip
            &&& word.len() == 0 ==> answer_in(line) == Answer::Skip
            &&& word == seq!['q'] ==> answer_in(line) == Answer::Quit
            &&& word.len() > 1 ==> answer_in(line) == Answer::Again
            &&& word.len() == 1 && word[0] != '1' && word[0] != '2' && word[0] != 's' && word[0]
                != 'q' ==> answer_in(line) == Answer::Again
        }),
        answer_in(None) == Answer::Quit,
{
    law_trimmed(front, word, back);
    reveal_strlit("1");
    reveal_strlit("2");
    reveal_strlit("s");
    reveal_strlit("");
    reveal_strlit("q");
    assert("1"@ =~= seq!['1']);
    assert("2"@ =~= seq!['2']);
    assert("s"@ =~= seq!['s']);
    assert("q"@ =~= seq!['q']);
    assert(seq!['1'][0] == '1' && seq!['2'][0] == '2' && seq!['s'][0] == 's' && seq!['q'][0]
        == 'q');
    if word.len() == 0 {
        assert(word =~= ""@);
    }
}

/// A question names the file, the line of the block and both classes, the first as
/// `1` and the second as `2`; where nothing is asked, nothing is shown.
pub proof fn law_what_is_asked(dialog: DialogView, palette: PaletteView)
    ensures
        !asking(dialog) ==> question_text(dialog, palette) == Seq::<char>::empty(),
        asking(dialog) ==> {
            let question = dialog.questions[dialog.block];
            let pair = question.pairs[dialog.pair];
            question_text(dialog, palette) == palette.bold + dialog.label + ":"@ + decimal(
                question.group.line as nat,
            ) + palette.reset + "\n    "@ + palette.warn + "1"@ + palette.reset + "  "@ + pair.0
                + "\n    "@ + palette.warn + "2"@ + palette.reset + "  "@ + pair.1
                + "\n  keep [1/2/s/q]: "@
        },
{
    reveal_strlit("\n");
    reveal_strlit("    ");
    reveal_strlit("\n    ");
    reveal_strlit("  keep [1/2/s/q]: ");
    reveal_strlit("\n  keep [1/2/s/q]: ");
    assert("\n    "@ =~= "\n"@ + "    "@);
    assert("\n  keep [1/2/s/q]: "@ =~= "\n"@ + "  keep [1/2/s/q]: "@);
    if asking(dialog) {
        let question = dialog.questions[dialog.block];
        let pair = question.pairs[dialog.pair];
        assert(question_text(dialog, palette) =~= palette.bold + dialog.label + ":"@ + decimal(
            question.group.line as nat,
        ) + palette.reset + "\n    "@ + palette.warn + "1"@ + palette.reset + "  "@ + pair.0
            + "\n    "@ + palette.warn + "2"@ + palette.reset + "  "@ + pair.1
            + "\n  keep [1/2/s/q]: "@);
    }
}

/// An answer is followed by the next question on a line below, and what is no answer
/// by the prompt alone.
pub proof fn law_what_follows_an_answer(dialog: DialogView, answer: Answer, palette: PaletteView)
    requires
        asking(dialog),
    ensures
        answer_text(dialog, Answer::Again, palette) == "  keep [1/2/s/q]: "@,
        answer != Answer::Again ==> answer_text(dialog, answer, palette) == "\n"@ + question_text(
            answered(dialog, answer),
            palette,
        ),
{
}

/// A resolution keeps a dialog as long as there is something to ask. One that is over
/// is closed, its removed classes are counted, and its source is written as it was
/// settled.
pub proof fn law_a_dialog_ends(run: ResolveView, dialog: DialogView, text: Seq<char>)
    requires
        run.resolved <= usize::MAX,
    ensures
        asking(dialog) ==> with_dialog(run, dialog) == (ResolveView { dialog: Some(dialog), ..run })
            && talk(dialog, text) == TalkView::Ask(text),
        !asking(dialog) ==> with_dialog(run, dialog).dialog is None && grown(
            with_dialog(run, dialog).resolved,
            run.resolved,
            dialog.count,
        ) && talk(dialog, text) == TalkView::Done(text, dialog_rewrite(dialog)),
        with_dialog(run, dialog).record == run.record,
        with_dialog(run, dialog).quit == run.quit,
        with_dialog(run, dialog).sweep == run.sweep,
{
}

/// An answer is that to the question that was asked, and whoever answers that they
/// quit has quit, whatever comes of the source at hand.
pub proof fn law_answering(run: ResolveView, dialog: DialogView, answer: Answer)
    ensures
        run_answered(run, dialog, Answer::Quit).quit,
        answer != Answer::Quit ==> run_answered(run, dialog, answer).quit == run.quit,
        run_answered(run, dialog, answer).record == run.record,
        asking(answered(dialog, answer)) ==> run_answered(run, dialog, answer).dialog == Some(
            answered(dialog, answer),
        ),
        !asking(answered(dialog, answer)) ==> run_answered(run, dialog, answer).dialog is None,
{
}

/// Whoever has quit is asked about no further source, and none is changed.
pub proof fn law_quitting_ends_it_all(
    before: ResolveView,
    after: ResolveView,
    talked: TalkView,
    file: Seq<char>,
    text: Seq<char>,
    blocks: Seq<GroupView>,
)
    requires
        before.quit,
        talk_begun(before, after, talked, file, text, blocks),
    ensures
        after == before,
        talked == TalkView::Done(Seq::empty(), RewriteView::Keep),
{
}

/// A source is left alone, and said not to fit, where classes are to go from a block
/// that does not start at a character of it.
pub proof fn law_no_room_for_a_choice(dialog: DialogView, answers: Seq<Answer>)
    requires
        0 <= dialog.block < dialog.questions.len(),
        dialog.removed.len() > 0,
        !is_char_boundary(
            encode_utf8(dialog.text),
            dialog.questions[dialog.block].group.start,
        ),
    ensures
        dialog_rewrite(block_closed(dialog)) is Misfit,
        dialog_rewrite(talked(settled(block_closed(dialog)), answers)) is Misfit,
{
    let closed = block_closed(dialog);
    lemma_settled_misfit(closed);
    lemma_talked_misfit(settled(closed), answers);
}

proof fn lemma_settled_misfit(dialog: DialogView)
    requires
        0 <= dialog.block,
        !dialog.fits,
    ensures
        !settled(dialog).fits,
    decreases
            dialog.questions.len() - dialog.block,
            dialog.questions[dialog.block].pairs.len() - dialog.pair,
{
    if dialog.block < dialog.questions.len() {
        let pairs = dialog.questions[dialog.block].pairs;
        if dialog.pair >= pairs.len() {
            lemma_settled_misfit(block_closed(dialog));
        } else if dialog.removed.contains(pairs[dialog.pair].0) || dialog.removed.contains(
            pairs[dialog.pair].1,
        ) {
            lemma_settled_misfit(DialogView { pair: dialog.pair + 1, ..dialog });
        }
    }
}

proof fn lemma_talked_misfit(dialog: DialogView, answers: Seq<Answer>)
    requires
        !dialog.fits,
    ensures
        !talked(dialog, answers).fits,
    decreases answers.len(),
{
    if answers.len() > 0 {
        lemma_talked_misfit(dialog, answers.drop_last());
        let before = talked(dialog, answers.drop_last());
        if asking(before) {
            let pair = before.questions[before.block].pairs[before.pair];
            let next = DialogView { pair: before.pair + 1, ..before };
            lemma_settled_misfit(next);
            lemma_settled_misfit(DialogView { removed: before.removed.push(pair.0), ..next });
            lemma_settled_misfit(DialogView { removed: before.removed.push(pair.1), ..next });
        }
    }
}

/// A source of which nothing is recorded is done with at once, and kept.
pub proof fn law_nothing_recorded_nothing_asked(
    before: ResolveView,
    after: ResolveView,
    talked: TalkView,
    file: Seq<char>,
    text: Seq<char>,
    blocks: Seq<GroupView>,
)
    requires
        !before.quit,
        before.resolved <= usize::MAX,
        talk_begun(before, after, talked, file, text, blocks),
        starts_differ(blocks),
        forall|i: int|
            0 <= i < blocks.len() ==> items_at(
                before.record.pairs,
                (file, (#[trigger] blocks[i]).start),
            ).len() == 0,
    ensures
        talked == TalkView::Done(Seq::empty(), RewriteView::Keep),
        after.dialog is None,
        after.resolved == before.resolved,
{
    let label = choose|label: Seq<char>| #[trigger]
        label_for(label, file, before.root) && {
            let dialog = source_dialog(before, file, text, blocks, label);
            &&& after == with_dialog(without_source(before, file, blocks), dialog)
            &&& talked == talk(dialog, question_text(dialog, before.palette))
        };
    let questions = questions_of(before.record.pairs, file, blocks);
    law_each_block_has_its_conflicts(before.record.pairs, file, blocks);
    let fresh = fresh_dialog(text, label, questions);
    assert forall|b: int| 0 <= b < questions.len() implies (#[trigger] questions[b]).pairs.len()
        == 0 by {
        assert(items_at(before.record.pairs, (file, blocks[b].start)).len() == 0);
    }
    lemma_nothing_to_ask(fresh);
}

proof fn lemma_nothing_to_ask(dialog: DialogView)
    requires
        0 <= dialog.block,
        dialog.pair == 0,
        dialog.removed.len() == 0,
        dialog.splices.len() == 0,
        dialog.fits,
        dialog.count == 0,
        forall|b: int|
            0 <= b < dialog.questions.len() ==> (#[trigger] dialog.questions[b]).pairs.len() == 0,
    ensures
        !asking(settled(dialog)),
        settled(dialog).count == 0,
        dialog_rewrite(settled(dialog)) is Keep,
    decreases dialog.questions.len() - dialog.block,
{
    if dialog.block < dialog.questions.len() {
        assert(dialog.questions[dialog.block].pairs.len() == 0);
        let next = block_closed(dialog);
        assert(settled(dialog) == settled(next));
        lemma_nothing_to_ask(next);
    } else {
        assert(settled(dialog) == dialog);
    }
}

/// A source is asked about with the conflicts that are recorded of its blocks, and a
/// block that has some is not passed over: the first question is the first conflict
/// of the first block that has one.
pub proof fn law_the_first_question(
    before: ResolveView,
    after: ResolveView,
    talked: TalkView,
    file: Seq<char>,
    text: Seq<char>,
    blocks: Seq<GroupView>,
    first: int,
)
    requires
        !before.quit,
        talk_begun(before, after, talked, file, text, blocks),
        starts_differ(blocks),
        0 <= first < blocks.len(),
        items_at(before.record.pairs, (file, blocks[first].start)).len() > 0,
        forall|i: int|
            0 <= i < first ==> items_at(
                before.record.pairs,
                (file, (#[trigger] blocks[i]).start),
            ).len() == 0,
    ensures
        talked is Ask,
        after.dialog matches Some(dialog) && {
            &&& asking(dialog)
            &&& dialog.block == first
            &&& dialog.pair == 0
            &&& dialog.text == text
            &&& dialog.removed.len() == 0
            &&& dialog.splices.len() == 0
            &&& dialog.questions == blocks.map_values(
                |g: GroupView|
                    QuestionView { group: g, pairs: items_at(before.record.pairs, (file, g.start)) },
            )
            &&& talked == TalkView::Ask(question_text(dialog, before.palette))
        },
{
    let label = choose|label: Seq<char>| #[trigger]
        label_for(label, file, before.root) && {
            let dialog = source_dialog(before, file, text, blocks, label);
            &&& after == with_dialog(without_source(before, file, blocks), dialog)
            &&& talked == talk(dialog, question_text(dialog, before.palette))
        };
    let questions = questions_of(before.record.pairs, file, blocks);
    law_each_block_has_its_conflicts(before.record.pairs, file, blocks);
    let fresh = fresh_dialog(text, label, questions);
    assert forall|b: int| 0 <= b < first implies (#[trigger] questions[b]).pairs.len() == 0 by {
        assert(items_at(before.record.pairs, (file, blocks[b].start)).len() == 0);
    }
    assert(questions[first].pairs.len() > 0);
    lemma_first_question(fresh, first);
}

proof fn lemma_first_question(dialog: DialogView, first: int)
    requires
        0 <= dialog.block <= first < dialog.questions.len(),
        dialog.pair == 0,
        dialog.removed.len() == 0,
        dialog.questions[first].pairs.len() > 0,
        forall|b: int|
            0 <= b < first ==> (#[trigger] dialog.questions[b]).pairs.len() == 0,
    ensures
        settled(dialog).block == first,
        settled(dialog).pair == 0,
        settled(dialog).text == dialog.text,
        settled(dialog).questions == dialog.questions,
        settled(dialog).removed.len() == 0,
        settled(dialog).splices == dialog.splices,
        asking(settled(dialog)),
    decreases first - dialog.block,
{
    if dialog.block < first {
        assert(dialog.questions[dialog.block].pairs.len() == 0);
        let next = block_closed(dialog);
        assert(settled(dialog) == settled(next));
        lemma_first_question(next, first);
    } else {
        assert(settled(dialog) == dialog);
    }
}

/// A check that found nothing says so; else it says how many findings there are, and
/// how many of them can be fixed and how many are conflicts.
pub proof fn law_check_summary(palette: PaletteView, fixable: nat, conflicts: nat)
    requires
        fixable + conflicts <= usize::MAX,
    ensures
        fixable + conflicts == 0 ==> check_summary(palette, fixable, conflicts) == "\n"@
            + palette.bold + "✓ clean"@ + palette.reset + "\n"@,
        fixable + conflicts > 0 ==> check_summary(palette, fixable, conflicts) == "\n"@
            + palette.bold + decimal(fixable + conflicts) + " issues"@ + palette.reset + "  "@
            + palette.warn + decimal(fixable) + " fixable"@ + palette.reset + "  "@ + palette.error
            + decimal(conflicts) + " conflicts"@ + palette.reset + "\n"@,
{
}

/// A check fails by as many findings as can be fixed or are conflicts.
pub proof fn law_issues(tally: TallyView)
    ensures
        grown(issues(tally), tally.fixable, tally.conflicts),
        issues(tally) == 0 <==> tally.fixable == 0 && tally.conflicts == 0,
{
}

/// A fix says how much it fixed, how much it wrote anew and how many conflicts are
/// left.
pub proof fn law_fix_summary(palette: PaletteView, record: FixRecordView)
    ensures
        fix_summary(palette, record) == "\n"@ + palette.bold + "✓ "@ + decimal(record.applied)
            + " fixed  "@ + decimal(record.reformatted) + " reformatted  "@ + palette.error
            + decimal(record.conflicts) + " conflicts left"@ + palette.reset + "\n"@,
{
}

/// A resolution says how many classes it removed, if any.
pub proof fn law_resolve_summary(palette: PaletteView, removed: nat)
    ensures
        resolve_summary(palette, 0) == palette.bold + "✓ no conflicts resolved"@ + palette.reset
            + "\n"@,
        removed > 0 ==> resolve_summary(palette, removed) == "\n"@ + palette.bold + "✓ removed "@
            + decimal(removed) + " class(es)"@ + palette.reset + " across your choices\n"@,
{
    reveal_strlit(" across your choices");
    reveal_strlit("\n");
    reveal_strlit(" across your choices\n");
    assert(" across your choices\n"@ =~= " across your choices"@ + "\n"@);
    if removed > 0 {
        assert(resolve_summary(palette, removed) =~= "\n"@ + palette.bold + "✓ removed "@ + decimal(
            removed,
        ) + " class(es)"@ + palette.reset + " across your choices\n"@);
    }
}

/// Colours are declined once and for all; else a terminal shows them, and so does
/// whoever is forced to.
pub proof fn law_when_colours_are_shown(force: bool, clicolor: bool, terminal: bool)
    ensures
        !shows_colours(true, force, clicolor, terminal),
        shows_colours(false, force, clicolor, true),
        shows_colours(false, true, clicolor, terminal),
        shows_colours(false, force, true, terminal),
        !shows_colours(false, false, false, false),
{
}

/// Colours are control sequences of the terminal, each ended by the same one, and
/// without colours nothing is added to a text.
pub proof fn law_palettes(text: Seq<char>)
    ensures
        coloured().warn == "\x1b[33m"@,
        coloured().error == "\x1b[31m"@,
        coloured().dim == "\x1b[2m"@,
        coloured().bold == "\x1b[1m"@,
        coloured().reset == "\x1b[0m"@,
        plain().warn + plain().error + plain().dim + plain().bold + text + plain().reset == text,
{
    reveal_strlit("");
    assert(plain().warn + plain().error + plain().dim + plain().bold + text + plain().reset
        =~= text);
}

} // verus!
