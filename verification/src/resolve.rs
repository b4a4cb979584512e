//! Resolving conflicts: the first pass records which classes of each block are
//! in conflict, the second shows each conflict and lets the user pick the class
//! to keep. The choice is applied, and nothing is ever guessed.
use crate::blocks::{item_views, items_at, BlockItems, BlockKey};
use crate::conflicts::{conflict_key, in_order, order_names, SeenConflicts, SeenView};
use crate::document::{ensure_blocks_matched, NothingMatched};
use crate::edits::{
    last_first, law_one_after_another, one_after_another, rebuilt, replaceable, splice_views,
    Splice, SpliceView,
};
use crate::finding::{
    classified_all, classify_all, finding_views, Finding, FindingView, Kind, KindView,
};
use crate::fix::{lists_apart, outcome, rewrite_text, Rewrite, RewriteView};
use crate::groups::{group_views, source_blocks, ClassGroup, GroupMatcher, GroupView};
use crate::layout::{
    format_class_list, formatted, indent_at, law_join_and_split, lemma_words_are_plain,
    lemma_words_single, plain_names, BlockLayout,
};
use crate::palette::{Palette, PaletteView};
use crate::paths::{label_for, relative};
use crate::protocol::{diagnostic_views, Diagnostic};
use crate::sweep::{
    all_diagnosed, capped, fresh_sweep, sweep_ended, sweep_next, sweep_step, sweep_with, Step, Sweep,
    SweepView,
};
use crate::text::{
    decimal, decimal_text, has_text, join_texts, joined, same_text, split_words, strings, text_of,
    trim_text, trimmed, word_length, words,
};
use vstd::prelude::*;
use vstd::string::*;
use vstd::utf8::*;

verus! {

/// Two classes in conflict, in order.
pub type PairView = (Seq<char>, Seq<char>);

/// The conflicts that the first pass has recorded.
pub struct ConflictsView {
    pub pairs: Map<BlockKey, Seq<PairView>>,
    pub seen: Seq<SeenView>,
}

/// The record after one more finding: a conflict of a block is recorded where
/// it was not seen before.
pub open spec fn conflict_noted(
    record: ConflictsView,
    chunk: Seq<GroupView>,
    finding: FindingView,
) -> ConflictsView {
    match finding.kind {
        KindView::Fatal(Some(pair)) => if finding.line >= chunk.len() {
            record
        } else {
            let group = chunk[finding.line as int];
            let entry = (group.file, group.start, conflict_key(pair.0, pair.1));
            if record.seen.contains(entry) {
                record
            } else {
                let key = (group.file, group.start);
                ConflictsView {
                    pairs: record.pairs.insert(
                        key,
                        items_at(record.pairs, key).push(in_order(pair.0, pair.1)),
                    ),
                    seen: record.seen.push(entry),
                }
            }
        },
        _ => record,
    }
}

/// The record after some more findings.
pub open spec fn conflicts_noted(
    record: ConflictsView,
    chunk: Seq<GroupView>,
    findings: Seq<FindingView>,
) -> ConflictsView
    decreases findings.len(),
{
    if findings.len() == 0 {
        record
    } else {
        conflict_noted(
            conflicts_noted(record, chunk, findings.drop_last()),
            chunk,
            findings.last(),
        )
    }
}

/// The conflicts of the whole corpus.
pub struct ConflictRecord {
    pairs: BlockItems<(String, String)>,
    seen: SeenConflicts,
}

impl View for ConflictRecord {
    type V = ConflictsView;

    closed spec fn view(&self) -> ConflictsView {
        ConflictsView { pairs: self.pairs@, seen: self.seen@ }
    }
}

/// A block and the conflicts to ask about.
pub struct Question {
    pub group: ClassGroup,
    pub pairs: Vec<(String, String)>,
}

pub struct QuestionView {
    pub group: GroupView,
    pub pairs: Seq<PairView>,
}

impl View for Question {
    type V = QuestionView;

    open spec fn view(&self) -> QuestionView {
        QuestionView { group: self.group@, pairs: item_views(self.pairs@) }
    }
}

pub open spec fn question_views(list: Seq<Question>) -> Seq<QuestionView> {
    list.map_values(|q: Question| q@)
}

/// The recorded conflicts without those of some blocks of a source.
pub open spec fn pairs_left(
    pairs: Map<BlockKey, Seq<PairView>>,
    file: Seq<char>,
    groups: Seq<GroupView>,
) -> Map<BlockKey, Seq<PairView>>
    decreases groups.len(),
{
    if groups.len() == 0 {
        pairs
    } else {
        pairs_left(pairs, file, groups.drop_last()).remove((file, groups.last().start))
    }
}

/// The blocks of a source with their recorded conflicts.
pub open spec fn questions_of(
    pairs: Map<BlockKey, Seq<PairView>>,
    file: Seq<char>,
    groups: Seq<GroupView>,
) -> Seq<QuestionView>
    decreases groups.len(),
{
    if groups.len() == 0 {
        Seq::empty()
    } else {
        questions_of(pairs, file, groups.drop_last()).push(
            QuestionView {
                group: groups.last(),
                pairs: items_at(
                    pairs_left(pairs, file, groups.drop_last()),
                    (file, groups.last().start),
                ),
            },
        )
    }
}

impl ConflictRecord {
    pub fn new() -> (record: ConflictRecord)
        ensures
            record@ == (ConflictsView { pairs: Map::empty(), seen: Seq::empty() }),
    {
        ConflictRecord { pairs: BlockItems::new(), seen: SeenConflicts::new() }
    }

    /// Record the conflicts among one chunk's findings, each one once.
    pub fn note_resolve_chunk(&mut self, chunk: &Vec<ClassGroup>, findings: &Vec<Finding>)
        ensures
            final(self)@ == conflicts_noted(
                old(self)@,
                group_views(chunk@),
                finding_views(findings@),
            ),
    {
        let mut i: usize = 0;
        let ghost all = finding_views(findings@);
        let ghost groups = group_views(chunk@);
        let ghost start = self@;
        while i < findings.len()
            invariant
                i <= findings@.len(),
                all == finding_views(findings@),
                groups == group_views(chunk@),
                self@ == conflicts_noted(start, groups, all.take(i as int)),
            decreases findings@.len() - i,
        {
            let finding = &findings[i];
            proof {
                assert(all.take(i + 1).drop_last() =~= all.take(i as int));
                assert(all.take(i + 1).last() == finding@);
            }
            let at: usize = finding.line as usize;
            if let Kind::Fatal(Some(pair)) = &finding.kind {
                if at < chunk.len() {
                    let group = &chunk[at];
                    assert(groups[at as int] == group@);
                    let names = order_names(pair.0.as_str(), pair.1.as_str());
                    if self.seen.insert(group.file.as_str(), group.list_span.start, &names) {
                        self.pairs.record(group.file.as_str(), group.list_span.start, names);
                    }
                }
            }
            i += 1;
        }
        assert(all.take(i as int) =~= all);
    }

    /// Take out the conflicts of a source's blocks.
    pub fn take_questions(&mut self, file: &str, blocks: Vec<ClassGroup>) -> (questions: Vec<
        Question,
    >)
        ensures
            question_views(questions@) == questions_of(
                old(self)@.pairs,
                file@,
                group_views(blocks@),
            ),
            final(self)@ == (ConflictsView {
                pairs: pairs_left(old(self)@.pairs, file@, group_views(blocks@)),
                ..old(self)@
            }),
    {
        let mut questions: Vec<Question> = Vec::new();
        let ghost list = blocks@;
        let ghost all = group_views(list);
        let ghost start = self@;
        assert(question_views(questions@) =~= Seq::empty());
        for group in it: blocks.into_iter()
            invariant
                it.seq() == list,
                all == group_views(list),
                self@.seen == start.seen,
                self@.pairs == pairs_left(start.pairs, file@, all.take(it.index() as int)),
                question_views(questions@) == questions_of(
                    start.pairs,
                    file@,
                    all.take(it.index() as int),
                ),
        {
            let ghost n = it.index() as int;
            let ghost before = questions@;
            proof {
                assert(all.take(n + 1).drop_last() =~= all.take(n));
                assert(all.take(n + 1).last() == group@);
            }
            let pairs = self.pairs.take(file, group.list_span.start);
            let question = Question { group, pairs };
            questions.push(question);
            assert(question_views(questions@) =~= question_views(before).push(question@));
        }
        assert(all.take(all.len() as int) =~= all);
        questions
    }
}

/// Each conflict of a block is recorded once, in whichever direction and however
/// often the server reports it.
pub open spec fn recorded_once(record: ConflictsView) -> bool {
    &&& forall|key: BlockKey, i: int, j: int|
        #![trigger record.pairs[key][i], record.pairs[key][j]]
        record.pairs.dom().contains(key) && 0 <= i < j < record.pairs[key].len()
            ==> record.pairs[key][i] != record.pairs[key][j]
    &&& forall|key: BlockKey, i: int|
        #![trigger record.pairs[key][i]]
        record.pairs.dom().contains(key) && 0 <= i < record.pairs[key].len()
            ==> record.seen.contains(
            (
                key.0,
                key.1,
                record.pairs[key][i].0 + "\0"@ + record.pairs[key][i].1,
            ),
        )
}

/// However the findings come, each conflict of a block is recorded once.
pub proof fn law_conflicts_recorded_once(
    record: ConflictsView,
    chunk: Seq<GroupView>,
    findings: Seq<FindingView>,
)
    requires
        recorded_once(record),
    ensures
        recorded_once(conflicts_noted(record, chunk, findings)),
    decreases findings.len(),
{
    if findings.len() > 0 {
        let before = conflicts_noted(record, chunk, findings.drop_last());
        let finding = findings.last();
        law_conflicts_recorded_once(record, chunk, findings.drop_last());
        let after = conflict_noted(before, chunk, finding);
        if after != before {
            let pair = finding.kind->Fatal_0->0;
            let group = chunk[finding.line as int];
            let here = (group.file, group.start);
            let entry = (group.file, group.start, conflict_key(pair.0, pair.1));
            assert(after.seen == before.seen.push(entry));
            assert(after.seen[after.seen.len() - 1] == entry);
            assert forall|seen: SeenView| before.seen.contains(seen) implies after.seen.contains(
                seen,
            ) by {
                let k = choose|k: int| 0 <= k < before.seen.len() && before.seen[k] == seen;
                assert(after.seen[k] == seen);
            }
            assert forall|key: BlockKey, i: int|
                #![trigger after.pairs[key][i]]
                after.pairs.dom().contains(key) && 0 <= i < after.pairs[key].len()
                implies after.seen.contains(
                (key.0, key.1, after.pairs[key][i].0 + "\0"@ + after.pairs[key][i].1),
            ) by {
                if key == here {
                    if i < items_at(before.pairs, here).len() {
                        assert(after.pairs[key][i] == before.pairs[key][i]);
                    }
                } else {
                    assert(after.pairs[key][i] == before.pairs[key][i]);
                }
            }
            assert forall|key: BlockKey, i: int, j: int|
                #![trigger after.pairs[key][i], after.pairs[key][j]]
                after.pairs.dom().contains(key) && 0 <= i < j < after.pairs[key].len()
                implies after.pairs[key][i] != after.pairs[key][j] by {
                if key == here {
                    let n = items_at(before.pairs, here).len();
                    assert(after.pairs[key][i] == before.pairs[key][i]);
                    if j < n {
                        assert(after.pairs[key][j] == before.pairs[key][j]);
                    } else {
                        let old_pair = before.pairs[key][i];
                        assert(before.seen.contains(
                            (key.0, key.1, old_pair.0 + "\0"@ + old_pair.1),
                        ));
                        assert(after.pairs[key][j] == in_order(pair.0, pair.1));
                    }
                } else {
                    assert(after.pairs[key][i] == before.pairs[key][i]);
                    assert(after.pairs[key][j] == before.pairs[key][j]);
                }
            }
        }
    }
}

/// What the user says to a conflict.
#[derive(Debug, Clone, Copy, PartialEq, Eq, Structural)]
pub enum Answer {
    /// Keep the first class: the second goes.
    KeepFirst,
    /// Keep the second class: the first goes.
    KeepSecond,
    /// Leave the conflict as it is.
    Skip,
    /// Stop asking.
    Quit,
    /// Not an answer: ask again.
    Again,
}

/// What a line that the user typed means; the end of the input stops the
/// dialog.
pub open spec fn answer_in(line: Option<Seq<char>>) -> Answer {
    match line {
        Some(text) => {
            let word = trimmed(text);
            if word == "1"@ {
                Answer::KeepFirst
            } else if word == "2"@ {
                Answer::KeepSecond
            } else if word == "s"@ || word == ""@ {
                Answer::Skip
            } else if word == "q"@ {
                Answer::Quit
            } else {
                Answer::Again
            }
        },
        None => Answer::Quit,
    }
}

/// Read a line that the user typed, or the end of the input.
pub fn read_answer(line: &Option<String>) -> (answer: Answer)
    ensures
        answer == answer_in(text_of(*line)),
{
    match line {
        Some(text) => {
            let word = trim_text(text.as_str());
            if same_text(word.as_str(), "1") {
                Answer::KeepFirst
            } else if same_text(word.as_str(), "2") {
                Answer::KeepSecond
            } else if same_text(word.as_str(), "s") || same_text(word.as_str(), "") {
                Answer::Skip
            } else if same_text(word.as_str(), "q") {
                Answer::Quit
            } else {
                Answer::Again
            }
        },
        None => Answer::Quit,
    }
}

/// The names of a list that are not removed, in their order.
pub open spec fn names_left(names: Seq<Seq<char>>, removed: Seq<Seq<char>>) -> Seq<Seq<char>> {
    names.filter(|name: Seq<char>| !removed.contains(name))
}

/// What is left of a literal, which may hold several classes: itself where none
/// of them is removed, else the others, and nothing where there are no others.
pub open spec fn literal_kept(literal: Seq<char>, removed: Seq<Seq<char>>) -> Option<Seq<char>> {
    let left = names_left(words(literal), removed);
    if removed.contains(literal) {
        None
    } else if left.len() == words(literal).len() {
        Some(literal)
    } else if left.len() == 0 {
        None
    } else {
        Some(joined(left, " "@))
    }
}

/// The literals of a list without the removed classes, in their order.
pub open spec fn kept(classes: Seq<Seq<char>>, removed: Seq<Seq<char>>) -> Seq<Seq<char>> {
    classes.filter_map(|literal: Seq<char>| literal_kept(literal, removed))
}

/// A list holds a class, in one of its literals.
pub open spec fn holds_class(classes: Seq<Seq<char>>, name: Seq<char>) -> bool {
    exists|i: int| 0 <= i < classes.len() && (#[trigger] words(classes[i])).contains(name)
}

proof fn lemma_names_left(names: Seq<Seq<char>>, removed: Seq<Seq<char>>)
    ensures
        forall|name: Seq<char>|
            names_left(names, removed).contains(name) <==> names.contains(name)
                && !removed.contains(name),
        names_left(names, removed).len() <= names.len(),
        names_left(names, removed).len() == names.len() ==> names_left(names, removed) == names,
    decreases names.len(),
{
    reveal(Seq::filter);
    if names.len() > 0 {
        let rest = names.drop_last();
        let last = names.last();
        let before = names_left(rest, removed);
        lemma_names_left(rest, removed);
        assert forall|name: Seq<char>| names_left(names, removed).contains(name)
            <==> names.contains(name) && !removed.contains(name) by {
            let after = before.push(last);
            assert(after[after.len() - 1] == last);
            assert(names[names.len() - 1] == last);
            if before.contains(name) {
                let i = choose|i: int| 0 <= i < before.len() && before[i] == name;
                assert(after[i] == name);
            }
            if rest.contains(name) {
                let i = choose|i: int| 0 <= i < rest.len() && rest[i] == name;
                assert(names[i] == name);
            }
            if names.contains(name) && name != last {
                let i = choose|i: int| 0 <= i < names.len() && names[i] == name;
                assert(rest[i] == name);
            }
        }
        assert(rest.push(last) =~= names);
    }
}

proof fn lemma_literal_kept(literal: Seq<char>, removed: Seq<Seq<char>>)
    requires
        plain_names(removed),
    ensures
        match literal_kept(literal, removed) {
            Some(left) => forall|name: Seq<char>| #[trigger]
                words(left).contains(name) <==> words(literal).contains(name)
                    && !removed.contains(name),
            None => forall|name: Seq<char>| #[trigger]
                words(literal).contains(name) ==> removed.contains(name),
        },
        literal_kept(literal, removed) == Some(literal) || exists|name: Seq<char>|
            words(literal).contains(name) && removed.contains(name),
{
    let names = words(literal);
    let left = names_left(names, removed);
    lemma_names_left(names, removed);
    lemma_words_are_plain(literal);
    if removed.contains(literal) {
        let i = choose|i: int| 0 <= i < removed.len() && removed[i] == literal;
        assert(removed[i].len() > 0);
        lemma_words_single(literal);
        assert(names[0] == literal);
        assert(names.contains(literal));
    } else if left.len() == names.len() {
        assert forall|name: Seq<char>| names.contains(name) implies !removed.contains(name) by {
            assert(left.contains(name));
        }
    } else {
        assert(exists|name: Seq<char>| names.contains(name) && removed.contains(name)) by {
            lemma_some_name_removed(names, removed);
        }
        if left.len() > 0 {
            assert forall|i: int| 0 <= i < left.len() implies (#[trigger] left[i]).len() > 0
                && word_length(left[i]) == left[i].len() by {
                assert(left.contains(left[i]));
                let k = choose|k: int| 0 <= k < names.len() && names[k] == left[i];
                assert(names[k].len() > 0);
            }
            law_join_and_split(left);
        } else {
            assert forall|name: Seq<char>| names.contains(name) implies removed.contains(name) by {
                if !removed.contains(name) {
                    assert(left.contains(name));
                }
            }
        }
    }
}

proof fn lemma_some_name_removed(names: Seq<Seq<char>>, removed: Seq<Seq<char>>)
    requires
        names_left(names, removed).len() != names.len(),
    ensures
        exists|name: Seq<char>| names.contains(name) && removed.contains(name),
    decreases names.len(),
{
    reveal(Seq::filter);
    if names.len() > 0 {
        let rest = names.drop_last();
        if removed.contains(names.last()) {
            assert(names[names.len() - 1] == names.last());
            assert(names.contains(names.last()));
        } else {
            lemma_some_name_removed(rest, removed);
            let name = choose|name: Seq<char>| rest.contains(name) && removed.contains(name);
            let i = choose|i: int| 0 <= i < rest.len() && rest[i] == name;
            assert(names[i] == name);
            assert(names.contains(name));
        }
    }
}

/// Exactly the removed classes go, also where several stand in one literal: a
/// list without any of them is kept as it is.
pub proof fn law_kept(classes: Seq<Seq<char>>, removed: Seq<Seq<char>>)
    requires
        plain_names(removed),
    ensures
        forall|name: Seq<char>|
            holds_class(kept(classes, removed), name) <==> holds_class(classes, name)
                && !removed.contains(name),
        (forall|name: Seq<char>| #[trigger]
            removed.contains(name) ==> !holds_class(classes, name)) ==> kept(classes, removed)
            == classes,
    decreases classes.len(),
{
    if classes.len() > 0 {
        let rest = classes.drop_last();
        let last = classes.last();
        let before = kept(rest, removed);
        let after = kept(classes, removed);
        law_kept(rest, removed);
        lemma_literal_kept(last, removed);
        assert(classes == rest.push(last));
        lemma_holds_class_push(rest, last);
        match literal_kept(last, removed) {
            Some(left) => {
                assert(after =~= before.push(left));
                lemma_holds_class_push(before, left);
            },
            None => {
                assert(after == before);
            },
        }
        assert forall|name: Seq<char>| holds_class(after, name) <==> holds_class(classes, name)
            && !removed.contains(name) by {
            assert(holds_class(before, name) <==> holds_class(rest, name) && !removed.contains(
                name,
            ));
            assert(holds_class(rest.push(last), name) <==> holds_class(rest, name) || words(
                last,
            ).contains(name));
            match literal_kept(last, removed) {
                Some(left) => {
                    assert(holds_class(before.push(left), name) <==> holds_class(before, name)
                        || words(left).contains(name));
                    assert(words(left).contains(name) <==> words(last).contains(name)
                        && !removed.contains(name));
                    assert(after == before.push(left));
                },
                None => {
                    assert(words(last).contains(name) ==> removed.contains(name));
                    assert(after == before);
                },
            }
        }
        if forall|name: Seq<char>| #[trigger]
            removed.contains(name) ==> !holds_class(classes, name) {
            assert forall|name: Seq<char>| #[trigger] removed.contains(name) implies !holds_class(
                rest,
                name,
            ) by {
                assert(holds_class(rest, name) ==> holds_class(classes, name));
            }
            assert(literal_kept(last, removed) == Some(last));
        }
    } else {
        assert(kept(classes, removed) =~= classes);
    }
}

proof fn lemma_holds_class_push(list: Seq<Seq<char>>, last: Seq<char>)
    ensures
        forall|name: Seq<char>|
            holds_class(list.push(last), name) <==> holds_class(list, name) || words(
                last,
            ).contains(name),
{
    let all = list.push(last);
    assert forall|name: Seq<char>| holds_class(all, name) <==> holds_class(list, name) || words(
        last,
    ).contains(name) by {
        if holds_class(all, name) {
            let i = choose|i: int| 0 <= i < all.len() && (#[trigger] words(all[i])).contains(name);
            if i < list.len() {
                assert(words(list[i]).contains(name));
            }
        }
        if holds_class(list, name) {
            let i = choose|i: int| 0 <= i < list.len() && (#[trigger] words(list[i])).contains(name);
            assert(words(all[i]).contains(name));
        }
        assert(all[list.len() as int] == last);
        if words(last).contains(name) {
            assert(words(all[list.len() as int]).contains(name));
        }
    }
}

fn leave_names(names: &Vec<String>, removed: &Vec<String>) -> (list: Vec<String>)
    ensures
        strings(list@) == names_left(strings(names@), strings(removed@)),
{
    let mut list: Vec<String> = Vec::new();
    let mut i: usize = 0;
    let ghost all = strings(names@);
    proof {
        reveal(Seq::filter);
        assert(strings(list@) =~= names_left(all.take(0), strings(removed@)));
    }
    while i < names.len()
        invariant
            i <= names@.len(),
            all == strings(names@),
            strings(list@) == names_left(all.take(i as int), strings(removed@)),
        decreases names@.len() - i,
    {
        proof {
            reveal(Seq::filter);
            assert(all.take(i + 1).drop_last() =~= all.take(i as int));
            assert(all.take(i + 1).last() == names@[i as int]@);
        }
        let ghost before = list@;
        if !has_text(removed, names[i].as_str()) {
            list.push(names[i].clone());
            assert(strings(list@) =~= strings(before).push(names@[i as int]@));
        }
        i += 1;
    }
    assert(all.take(i as int) =~= all);
    list
}

fn keep_literal(literal: &str, removed: &Vec<String>) -> (left: Option<String>)
    ensures
        text_of(left) == literal_kept(literal@, strings(removed@)),
{
    if has_text(removed, literal) {
        return None;
    }
    let names = split_words(literal);
    let left = leave_names(&names, removed);
    assert(strings(names@).len() == names@.len());
    assert(strings(left@).len() == left@.len());
    if left.len() == names.len() {
        Some(literal.to_string())
    } else if left.is_empty() {
        None
    } else {
        Some(join_texts(&left, " "))
    }
}

fn keep_classes(classes: &Vec<String>, removed: &Vec<String>) -> (list: Vec<String>)
    ensures
        strings(list@) == kept(strings(classes@), strings(removed@)),
{
    let mut list: Vec<String> = Vec::new();
    let mut i: usize = 0;
    let ghost all = strings(classes@);
    assert(strings(list@) =~= kept(all.take(0), strings(removed@)));
    while i < classes.len()
        invariant
            i <= classes@.len(),
            all == strings(classes@),
            strings(list@) == kept(all.take(i as int), strings(removed@)),
        decreases classes@.len() - i,
    {
        proof {
            assert(all.take(i + 1).drop_last() =~= all.take(i as int));
            assert(all.take(i + 1).last() == classes@[i as int]@);
        }
        let ghost before = list@;
        if let Some(left) = keep_literal(classes[i].as_str(), removed) {
            list.push(left);
            assert(strings(list@) =~= strings(before).push(left@));
        }
        assert(strings(list@) =~= kept(all.take(i + 1), strings(removed@)));
        i += 1;
    }
    assert(all.take(i as int) =~= all);
    list
}

/// The dialog on one source: the block and the conflict that are asked about,
/// the classes of this block that are to go, and what the choices so far make
/// of the source.
pub struct DialogView {
    pub text: Seq<char>,
    pub label: Seq<char>,
    pub questions: Seq<QuestionView>,
    pub block: int,
    pub pair: int,
    pub removed: Seq<Seq<char>>,
    pub splices: Seq<SpliceView>,
    pub fits: bool,
    pub count: nat,
}

/// The beginning of a dialog.
pub open spec fn fresh_dialog(
    text: Seq<char>,
    label: Seq<char>,
    questions: Seq<QuestionView>,
) -> DialogView {
    DialogView {
        text,
        label,
        questions,
        block: 0,
        pair: 0,
        removed: Seq::empty(),
        splices: Seq::empty(),
        fits: true,
        count: 0,
    }
}

/// The dialog after its block: where classes are to go, the block's list is
/// written anew without them.
pub open spec fn block_closed(dialog: DialogView) -> DialogView {
    let group = dialog.questions[dialog.block].group;
    let bytes = encode_utf8(dialog.text);
    let next = DialogView {
        block: dialog.block + 1,
        pair: 0,
        removed: Seq::empty(),
        ..dialog
    };
    if dialog.removed.len() == 0 {
        next
    } else if !is_char_boundary(bytes, group.start) {
        DialogView { fits: false, ..next }
    } else {
        DialogView {
            splices: dialog.splices.push(
                SpliceView {
                    start: group.start,
                    end: group.end,
                    text: formatted(
                        kept(group.classes, dialog.removed),
                        indent_at(bytes, group.start),
                    ),
                },
            ),
            count: capped(dialog.count + dialog.removed.len()),
            ..next
        }
    }
}

/// The dialog at the next conflict to ask about: one of which a class is to go
/// already is passed over.
pub open spec fn settled(dialog: DialogView) -> DialogView
    decreases
            dialog.questions.len() - dialog.block,
            dialog.questions[dialog.block].pairs.len() - dialog.pair,
{
    if !(0 <= dialog.block < dialog.questions.len()) {
        dialog
    } else {
        let pairs = dialog.questions[dialog.block].pairs;
        if dialog.pair >= pairs.len() {
            settled(block_closed(dialog))
        } else if dialog.removed.contains(pairs[dialog.pair].0) || dialog.removed.contains(
            pairs[dialog.pair].1,
        ) {
            settled(DialogView { pair: dialog.pair + 1, ..dialog })
        } else {
            dialog
        }
    }
}

/// Whether a dialog is at a conflict to ask about.
pub open spec fn asking(dialog: DialogView) -> bool {
    0 <= dialog.block < dialog.questions.len() && 0 <= dialog.pair
        < dialog.questions[dialog.block].pairs.len()
}

/// The dialog once a conflict was answered.
pub open spec fn answered(dialog: DialogView, answer: Answer) -> DialogView {
    let pair = dialog.questions[dialog.block].pairs[dialog.pair];
    let next = DialogView { pair: dialog.pair + 1, ..dialog };
    if !asking(dialog) {
        dialog
    } else {
        match answer {
            Answer::KeepFirst => settled(
                DialogView { removed: dialog.removed.push(pair.1), ..next },
            ),
            Answer::KeepSecond => settled(
                DialogView { removed: dialog.removed.push(pair.0), ..next },
            ),
            Answer::Skip => settled(next),
            Answer::Quit => DialogView {
                block: dialog.questions.len() as int,
                ..block_closed(dialog)
            },
            Answer::Again => dialog,
        }
    }
}

/// The line with which an answer is asked for.
pub open spec fn ask() -> Seq<char> {
    "  keep [1/2/s/q]: "@
}

/// A dialog either is at a conflict of which both classes are still kept, or has
/// nothing left to ask.
pub proof fn law_settled(dialog: DialogView)
    requires
        0 <= dialog.block,
        0 <= dialog.pair,
    ensures
        asking(settled(dialog)) || settled(dialog).block >= settled(dialog).questions.len(),
        asking(settled(dialog)) ==> {
            let end = settled(dialog);
            let pair = end.questions[end.block].pairs[end.pair];
            !end.removed.contains(pair.0) && !end.removed.contains(pair.1)
        },
    decreases
            dialog.questions.len() - dialog.block,
            dialog.questions[dialog.block].pairs.len() - dialog.pair,
{
    if dialog.block < dialog.questions.len() {
        let pairs = dialog.questions[dialog.block].pairs;
        if dialog.pair >= pairs.len() {
            law_settled(block_closed(dialog));
        } else if dialog.removed.contains(pairs[dialog.pair].0) || dialog.removed.contains(
            pairs[dialog.pair].1,
        ) {
            law_settled(DialogView { pair: dialog.pair + 1, ..dialog });
        }
    }
}

/// How the conflict that a dialog is at is shown.
pub open spec fn question_text(dialog: DialogView, palette: PaletteView) -> Seq<char> {
    if !asking(dialog) {
        Seq::empty()
    } else {
        let question = dialog.questions[dialog.block];
        let pair = question.pairs[dialog.pair];
        palette.bold + dialog.label + ":"@ + decimal(question.group.line as nat) + palette.reset
            + "\n"@ + "    "@ + palette.warn + "1"@ + palette.reset + "  "@ + pair.0 + "\n"@
            + "    "@ + palette.warn + "2"@ + palette.reset + "  "@ + pair.1 + "\n"@ + ask()
    }
}

/// What is shown after an answer.
pub open spec fn answer_text(
    dialog: DialogView,
    answer: Answer,
    palette: PaletteView,
) -> Seq<char> {
    if !asking(dialog) {
        Seq::empty()
    } else if answer == Answer::Again {
        ask()
    } else {
        "\n"@ + question_text(answered(dialog, answer), palette)
    }
}

/// What a dialog makes of its source.
pub open spec fn dialog_rewrite(dialog: DialogView) -> RewriteView {
    if dialog.fits {
        outcome(encode_utf8(dialog.text), dialog.splices)
    } else {
        RewriteView::Misfit
    }
}

/// The dialog after some answers.
pub open spec fn talked(dialog: DialogView, answers: Seq<Answer>) -> DialogView
    decreases answers.len(),
{
    if answers.len() == 0 {
        dialog
    } else {
        answered(talked(dialog, answers.drop_last()), answers.last())
    }
}

proof fn lemma_settled_keeps(dialog: DialogView)
    requires
        dialog.removed.len() == 0,
    ensures
        settled(dialog).removed.len() == 0,
        settled(dialog).splices == dialog.splices,
        settled(dialog).count == dialog.count,
        settled(dialog).fits == dialog.fits,
        settled(dialog).text == dialog.text,
    decreases
            dialog.questions.len() - dialog.block,
            dialog.questions[dialog.block].pairs.len() - dialog.pair,
{
    if 0 <= dialog.block < dialog.questions.len() {
        let pairs = dialog.questions[dialog.block].pairs;
        if dialog.pair >= pairs.len() {
            lemma_settled_keeps(block_closed(dialog));
        }
    }
}

/// Nothing is guessed: as long as no answer picks a class, no class goes and the
/// source is kept as it is.
pub proof fn law_no_choice_no_change(
    text: Seq<char>,
    label: Seq<char>,
    questions: Seq<QuestionView>,
    answers: Seq<Answer>,
)
    requires
        forall|i: int|
            0 <= i < answers.len() ==> #[trigger] answers[i] != Answer::KeepFirst && answers[i]
                != Answer::KeepSecond,
    ensures
        ({
            let end = talked(settled(fresh_dialog(text, label, questions)), answers);
            &&& end.removed.len() == 0
            &&& end.count == 0
            &&& dialog_rewrite(end) == RewriteView::Keep
        }),
{
    let start = settled(fresh_dialog(text, label, questions));
    lemma_settled_keeps(fresh_dialog(text, label, questions));
    lemma_talk_keeps(start, answers);
}

proof fn lemma_talk_keeps(dialog: DialogView, answers: Seq<Answer>)
    requires
        dialog.removed.len() == 0,
        forall|i: int|
            0 <= i < answers.len() ==> #[trigger] answers[i] != Answer::KeepFirst && answers[i]
                != Answer::KeepSecond,
    ensures
        talked(dialog, answers).removed.len() == 0,
        talked(dialog, answers).splices == dialog.splices,
        talked(dialog, answers).count == dialog.count,
        talked(dialog, answers).fits == dialog.fits,
        talked(dialog, answers).text == dialog.text,
    decreases answers.len(),
{
    if answers.len() > 0 {
        let rest = answers.drop_last();
        assert forall|i: int| 0 <= i < rest.len() implies #[trigger] rest[i] != Answer::KeepFirst
            && rest[i] != Answer::KeepSecond by {
            assert(rest[i] == answers[i]);
        }
        lemma_talk_keeps(dialog, rest);
        let before = talked(dialog, rest);
        assert(answers.last() == answers[answers.len() - 1]);
        if answers.last() == Answer::Skip {
            lemma_settled_keeps(DialogView { pair: before.pair + 1, ..before });
        }
    }
}

/// The replacements of a dialog so far: they stand one after the other, and each
/// is the class list of a block that is done with.
pub open spec fn in_place(dialog: DialogView) -> bool {
    &&& dialog.fits
    &&& 0 <= dialog.block
    &&& one_after_another(encode_utf8(dialog.text), dialog.splices)
    &&& forall|i: int|
        0 <= i < dialog.splices.len() ==> replaces_list(
            #[trigger] dialog.splices[i],
            dialog.questions,
            dialog.block,
        )
}

/// A replacement is that of the class list of one of the first blocks.
pub open spec fn replaces_list(
    splice: SpliceView,
    questions: Seq<QuestionView>,
    upto: int,
) -> bool {
    exists|k: int|
        0 <= k < upto && k < questions.len() && splice.start == (
        #[trigger] questions[k]).group.start && splice.end == questions[k].group.end
}

/// The blocks of some questions.
pub open spec fn question_groups(questions: Seq<QuestionView>) -> Seq<GroupView> {
    questions.map_values(|q: QuestionView| q.group)
}

proof fn lemma_close_in_place(dialog: DialogView)
    requires
        in_place(dialog),
        dialog.block < dialog.questions.len(),
        lists_apart(encode_utf8(dialog.text), question_groups(dialog.questions)),
    ensures
        in_place(block_closed(dialog)),
{
    let bytes = encode_utf8(dialog.text);
    let groups = question_groups(dialog.questions);
    let at = dialog.block;
    let group = dialog.questions[at].group;
    let end = block_closed(dialog);
    let n = dialog.splices.len() as int;
    assert(groups[at] == group);
    assert(replaceable(bytes, group.start, group.end));
    assert forall|i: int| 0 <= i < end.splices.len() implies replaces_list(
        #[trigger] end.splices[i],
        end.questions,
        end.block,
    ) by {
        if i < n {
            assert(end.splices[i] == dialog.splices[i]);
            assert(replaces_list(dialog.splices[i], dialog.questions, dialog.block));
        } else {
            assert(end.questions[at].group.start == end.splices[i].start);
        }
    }
    assert forall|i: int| 0 <= i < end.splices.len() implies replaceable(
        bytes,
        (#[trigger] end.splices[i]).start,
        end.splices[i].end,
    ) by {
        if i < n {
            assert(end.splices[i] == dialog.splices[i]);
        }
    }
    assert forall|i: int, j: int| 0 <= i < j < end.splices.len() implies (
    #[trigger] end.splices[i]).start < (#[trigger] end.splices[j]).start && end.splices[i].end
        <= end.splices[j].start by {
        assert(end.splices[i] == dialog.splices[i]);
        if j < n {
            assert(end.splices[j] == dialog.splices[j]);
        } else {
            assert(replaces_list(dialog.splices[i], dialog.questions, dialog.block));
            let k = choose|k: int|
                0 <= k < dialog.block && k < dialog.questions.len() && dialog.splices[i].start == (
                #[trigger] dialog.questions[k]).group.start && dialog.splices[i].end
                    == dialog.questions[k].group.end;
            assert(groups[k] == dialog.questions[k].group);
            assert(groups[k].start < groups[at].start && groups[k].end <= groups[at].start);
        }
    }
}

proof fn lemma_settled_in_place(dialog: DialogView)
    requires
        in_place(dialog),
        lists_apart(encode_utf8(dialog.text), question_groups(dialog.questions)),
    ensures
        in_place(settled(dialog)),
        settled(dialog).text == dialog.text,
        settled(dialog).questions == dialog.questions,
    decreases
            dialog.questions.len() - dialog.block,
            dialog.questions[dialog.block].pairs.len() - dialog.pair,
{
    if dialog.block < dialog.questions.len() {
        let pairs = dialog.questions[dialog.block].pairs;
        if dialog.pair >= pairs.len() {
            lemma_close_in_place(dialog);
            lemma_settled_in_place(block_closed(dialog));
        } else if dialog.removed.contains(pairs[dialog.pair].0) || dialog.removed.contains(
            pairs[dialog.pair].1,
        ) {
            let next = DialogView { pair: dialog.pair + 1, ..dialog };
            assert(in_place(next));
            lemma_settled_in_place(next);
        }
    }
}

proof fn lemma_talk_in_place(dialog: DialogView, answers: Seq<Answer>)
    requires
        in_place(dialog),
        lists_apart(encode_utf8(dialog.text), question_groups(dialog.questions)),
    ensures
        in_place(talked(dialog, answers)),
        talked(dialog, answers).text == dialog.text,
        talked(dialog, answers).questions == dialog.questions,
    decreases answers.len(),
{
    if answers.len() > 0 {
        let before = talked(dialog, answers.drop_last());
        lemma_talk_in_place(dialog, answers.drop_last());
        if asking(before) {
            let pair = before.questions[before.block].pairs[before.pair];
            let next = DialogView { pair: before.pair + 1, ..before };
            let first_gone = DialogView { removed: before.removed.push(pair.0), ..next };
            let second_gone = DialogView { removed: before.removed.push(pair.1), ..next };
            match answers.last() {
                Answer::KeepFirst => {
                    assert(in_place(second_gone));
                    lemma_settled_in_place(second_gone);
                },
                Answer::KeepSecond => {
                    assert(in_place(first_gone));
                    lemma_settled_in_place(first_gone);
                },
                Answer::Skip => {
                    assert(in_place(next));
                    lemma_settled_in_place(next);
                },
                Answer::Quit => {
                    lemma_close_in_place(before);
                    let closed = block_closed(before);
                    let end = answered(before, Answer::Quit);
                    assert(end.splices == closed.splices);
                    assert forall|i: int| 0 <= i < end.splices.len() implies replaces_list(
                        #[trigger] end.splices[i],
                        end.questions,
                        end.block,
                    ) by {
                        assert(replaces_list(closed.splices[i], closed.questions, closed.block));
                    }
                },
                Answer::Again => {},
            }
        }
    }
}

/// Whatever is answered, a resolution replaces class lists of the source's
/// blocks and nothing else: where the lists stand one after the other,
/// everything outside the replaced lists is kept byte by byte.
pub proof fn law_resolution_keeps_the_rest(
    text: Seq<char>,
    label: Seq<char>,
    questions: Seq<QuestionView>,
    answers: Seq<Answer>,
)
    requires
        lists_apart(encode_utf8(text), question_groups(questions)),
    ensures
        ({
            let bytes = encode_utf8(text);
            let end = talked(settled(fresh_dialog(text, label, questions)), answers);
            dialog_rewrite(end) == if end.splices.len() == 0 {
                RewriteView::Keep
            } else {
                RewriteView::Write(rebuilt(bytes, last_first(end.splices), bytes.len() as int))
            }
        }),
{
    let start = fresh_dialog(text, label, questions);
    assert(in_place(start));
    lemma_settled_in_place(start);
    lemma_talk_in_place(settled(start), answers);
    let end = talked(settled(start), answers);
    law_one_after_another(text, end.splices);
}

/// A dialog on one source.
pub struct Dialog {
    text: String,
    label: String,
    questions: Vec<Question>,
    block: usize,
    pair: usize,
    removed: Vec<String>,
    splices: Vec<Splice>,
    fits: bool,
    count: usize,
}

impl View for Dialog {
    type V = DialogView;

    closed spec fn view(&self) -> DialogView {
        DialogView {
            text: self.text@,
            label: self.label@,
            questions: question_views(self.questions@),
            block: self.block as int,
            pair: self.pair as int,
            removed: strings(self.removed@),
            splices: splice_views(self.splices@),
            fits: self.fits,
            count: self.count as nat,
        }
    }
}

impl Dialog {
    /// Begin a dialog at its first conflict.
    pub fn new(text: String, label: String, questions: Vec<Question>) -> (dialog: Dialog)
        ensures
            dialog@ == settled(fresh_dialog(text@, label@, question_views(questions@))),
    {
        let mut dialog = Dialog {
            text,
            label,
            questions,
            block: 0,
            pair: 0,
            removed: Vec::new(),
            splices: Vec::new(),
            fits: true,
            count: 0,
        };
        assert(dialog@.removed =~= Seq::empty());
        assert(dialog@.splices =~= Seq::empty());
        dialog.settle();
        dialog
    }

    fn close_block(&mut self)
        requires
            old(self)@.block < old(self)@.questions.len(),
        ensures
            final(self)@ == block_closed(old(self)@),
    {
        let ghost before = self@;
        let total: usize = self.questions.len();
        let at = self.block;
        assert(at < total);
        self.block = at + 1;
        self.pair = 0;
        let mut removed: Vec<String> = Vec::new();
        std::mem::swap(&mut removed, &mut self.removed);
        assert(self@.removed =~= Seq::empty());
        if !removed.is_empty() {
            let group = &self.questions[at].group;
            assert(before.questions[at as int].group == group@);
            let first = group.list_span.start;
            let last = group.list_span.end;
            if self.text.as_str().is_char_boundary(first) {
                let classes = keep_classes(&group.classes, &removed);
                let layout = BlockLayout::at(self.text.as_str(), first);
                let list = format_class_list(&classes, &layout);
                let splice = Splice { start: first, end: last, text: list };
                let ghost old_splices = self.splices@;
                self.splices.push(splice);
                assert(splice_views(self.splices@) =~= splice_views(old_splices).push(splice@));
                self.count = self.count.saturating_add(removed.len());
            } else {
                self.fits = false;
            }
        }
    }

    fn settle(&mut self)
        ensures
            final(self)@ == settled(old(self)@),
    {
        let ghost start = self@;
        while self.block < self.questions.len()
            invariant_except_break
                settled(self@) == settled(start),
            ensures
                self@ == settled(start),
            decreases
                    self.questions@.len() - self.block,
                    self.questions@[self.block as int].pairs@.len() - self.pair,
        {
            let pairs = &self.questions[self.block].pairs;
            assert(self@.questions[self.block as int].pairs == item_views(pairs@));
            if self.pair >= pairs.len() {
                self.close_block();
            } else {
                let pair = &pairs[self.pair];
                assert(item_views(pairs@)[self.pair as int] == (pair.0@, pair.1@));
                if has_text(&self.removed, pair.0.as_str()) || has_text(
                    &self.removed,
                    pair.1.as_str(),
                ) {
                    self.pair = self.pair + 1;
                } else {
                    break;
                }
            }
        }
    }

    /// Whether a conflict is to be answered.
    pub fn is_asking(&self) -> (yes: bool)
        ensures
            yes == asking(self@),
    {
        if self.block < self.questions.len() {
            assert(self@.questions[self.block as int].pairs.len() == self.questions@[self.block as
            int].pairs@.len());
            self.pair < self.questions[self.block].pairs.len()
        } else {
            false
        }
    }

    /// How the conflict is shown.
    pub fn question(&self, palette: &Palette) -> (text: String)
        ensures
            text@ == question_text(self@, palette@),
    {
        let mut text = String::new();
        if self.is_asking() {
            let question = &self.questions[self.block];
            let pair = &question.pairs[self.pair];
            assert(self@.questions[self.block as int] == question@);
            assert(question@.pairs[self.pair as int] == (pair.0@, pair.1@));
            text.append(palette.bold);
            text.append(self.label.as_str());
            text.append(":");
            text.append(decimal_text(question.group.line as u64).as_str());
            text.append(palette.reset);
            text.append("\n");
            text.append("    ");
            text.append(palette.warn);
            text.append("1");
            text.append(palette.reset);
            text.append("  ");
            text.append(pair.0.as_str());
            text.append("\n");
            text.append("    ");
            text.append(palette.warn);
            text.append("2");
            text.append(palette.reset);
            text.append("  ");
            text.append(pair.1.as_str());
            text.append("\n");
            text.append("  keep [1/2/s/q]: ");
            assert(text@ =~= question_text(self@, palette@));
        }
        text
    }

    /// Take an answer; gives what is shown next.
    pub fn answer(&mut self, answer: Answer, palette: &Palette) -> (text: String)
        ensures
            final(self)@ == answered(old(self)@, answer),
            text@ == answer_text(old(self)@, answer, palette@),
    {
        if !self.is_asking() {
            return String::new();
        }
        let pair = &self.questions[self.block].pairs[self.pair];
        let first = pair.0.clone();
        let second = pair.1.clone();
        assert(self@.questions[self.block as int].pairs[self.pair as int] == (first@, second@));
        let ghost before = self.removed@;
        let total: usize = self.questions[self.block].pairs.len();
        assert(self.pair < total);
        match answer {
            Answer::KeepFirst => {
                self.removed.push(second);
                assert(strings(self.removed@) =~= strings(before).push(second@));
                self.pair = self.pair + 1;
                self.settle();
            },
            Answer::KeepSecond => {
                self.removed.push(first);
                assert(strings(self.removed@) =~= strings(before).push(first@));
                self.pair = self.pair + 1;
                self.settle();
            },
            Answer::Skip => {
                self.pair = self.pair + 1;
                self.settle();
            },
            Answer::Quit => {
                self.close_block();
                self.block = self.questions.len();
            },
            Answer::Again => {
                return "  keep [1/2/s/q]: ".to_string();
            },
        }
        let mut text = "\n".to_string();
        text.append(self.question(palette).as_str());
        text
    }

    /// What the choices make of the source.
    pub fn rewrite(&self) -> (rewrite: Rewrite)
        ensures
            rewrite@ == dialog_rewrite(self@),
    {
        if self.fits {
            rewrite_text(self.text.as_str(), &self.splices)
        } else {
            Rewrite::Misfit
        }
    }

    /// The number of classes that go.
    pub fn removed_count(&self) -> (count: usize)
        ensures
            count == self@.count,
    {
        self.count
    }
}

/// What a dialog says at the end of all sources.
pub open spec fn resolve_summary(palette: PaletteView, resolved: nat) -> Seq<char> {
    if resolved == 0 {
        palette.bold + "✓ no conflicts resolved"@ + palette.reset + "\n"@
    } else {
        "\n"@ + palette.bold + "✓ removed "@ + decimal(resolved) + " class(es)"@ + palette.reset
            + " across your choices"@ + "\n"@
    }
}

/// What comes next in the second pass.
#[derive(Debug)]
pub enum Talk {
    /// Print this text and hand in the line that the user types.
    Ask(String),
    /// Print this text; the source is done with.
    Done(String, Rewrite),
}

pub enum TalkView {
    Ask(Seq<char>),
    Done(Seq<char>, RewriteView),
}

impl View for Talk {
    type V = TalkView;

    open spec fn view(&self) -> TalkView {
        match self {
            Talk::Ask(text) => TalkView::Ask(text@),
            Talk::Done(text, rewrite) => TalkView::Done(text@, rewrite@),
        }
    }
}

/// How a dialog goes on once a text was shown.
pub open spec fn talk(dialog: DialogView, text: Seq<char>) -> TalkView {
    if asking(dialog) {
        TalkView::Ask(text)
    } else {
        TalkView::Done(text, dialog_rewrite(dialog))
    }
}

/// A resolution of a corpus. The first pass goes as that of a check or a fix; in
/// the second pass hand in the sources again and the lines that the user types.
pub struct ResolveRun {
    matcher: GroupMatcher,
    root: String,
    palette: Palette,
    sweep: Sweep,
    record: ConflictRecord,
    dialog: Option<Dialog>,
    resolved: usize,
    quit: bool,
}

pub struct ResolveView {
    pub opener: Seq<char>,
    pub item: Seq<char>,
    pub root: Seq<char>,
    pub palette: PaletteView,
    pub sweep: SweepView,
    pub record: ConflictsView,
    pub dialog: Option<DialogView>,
    pub resolved: nat,
    pub quit: bool,
}

impl View for ResolveRun {
    type V = ResolveView;

    closed spec fn view(&self) -> ResolveView {
        ResolveView {
            opener: self.matcher.opener_pattern(),
            item: self.matcher.item_pattern(),
            root: self.root@,
            palette: self.palette@,
            sweep: self.sweep@,
            record: self.record@,
            dialog: match self.dialog {
                Some(dialog) => Some(dialog@),
                None => None,
            },
            resolved: self.resolved as nat,
            quit: self.quit,
        }
    }
}

/// A resolution that goes on with a dialog: one that is done with is closed, and
/// its removed classes are counted.
pub open spec fn with_dialog(run: ResolveView, dialog: DialogView) -> ResolveView {
    if asking(dialog) {
        ResolveView { dialog: Some(dialog), ..run }
    } else {
        ResolveView { dialog: None, resolved: capped(run.resolved + dialog.count), ..run }
    }
}

/// A resolution after an answer in its dialog.
pub open spec fn run_answered(run: ResolveView, dialog: DialogView, answer: Answer) -> ResolveView {
    with_dialog(
        ResolveView { quit: run.quit || answer == Answer::Quit, ..run },
        answered(dialog, answer),
    )
}

/// The dialog on a source with some blocks.
pub open spec fn source_dialog(
    run: ResolveView,
    file: Seq<char>,
    text: Seq<char>,
    blocks: Seq<GroupView>,
    label: Seq<char>,
) -> DialogView {
    settled(fresh_dialog(text, label, questions_of(run.record.pairs, file, blocks)))
}

/// A resolution whose recorded conflicts of a source were taken out.
pub open spec fn without_source(
    run: ResolveView,
    file: Seq<char>,
    blocks: Seq<GroupView>,
) -> ResolveView {
    ResolveView {
        record: ConflictsView { pairs: pairs_left(run.record.pairs, file, blocks), ..run.record },
        ..run
    }
}

/// What a resolution makes of a source with some blocks: once the user has quit,
/// nothing.
pub open spec fn talk_begun(
    before: ResolveView,
    after: ResolveView,
    talked: TalkView,
    file: Seq<char>,
    text: Seq<char>,
    blocks: Seq<GroupView>,
) -> bool {
    if before.quit {
        after == before && talked == TalkView::Done(Seq::empty(), RewriteView::Keep)
    } else {
        exists|label: Seq<char>| #[trigger]
            label_for(label, file, before.root) && {
                let dialog = source_dialog(before, file, text, blocks, label);
                &&& after == with_dialog(without_source(before, file, blocks), dialog)
                &&& talked == talk(dialog, question_text(dialog, before.palette))
            }
    }
}

impl ResolveRun {
    pub fn new(matcher: GroupMatcher, root: String, palette: Palette) -> (run: ResolveRun)
        ensures
            run@ == (ResolveView {
                opener: matcher.opener_pattern(),
                item: matcher.item_pattern(),
                root: root@,
                palette: palette@,
                sweep: fresh_sweep(),
                record: ConflictsView { pairs: Map::empty(), seen: Seq::empty() },
                dialog: None,
                resolved: 0,
                quit: false,
            }),
    {
        ResolveRun {
            matcher,
            root,
            palette,
            sweep: Sweep::new(),
            record: ConflictRecord::new(),
            dialog: None,
            resolved: 0,
            quit: false,
        }
    }

    /// First pass: hand in the blocks of a source.
    pub fn on_blocks(&mut self, blocks: Vec<ClassGroup>) -> (step: Step)
        ensures
            final(self)@ == (ResolveView {
                sweep: sweep_next(sweep_with(old(self)@.sweep, group_views(blocks@))),
                ..old(self)@
            }),
            step@ == sweep_step(sweep_with(old(self)@.sweep, group_views(blocks@))),
    {
        self.sweep.add_source(blocks);
        self.sweep.next_step()
    }

    /// First pass: hand in a source.
    pub fn on_source(&mut self, file: &str, text: &str) -> (step: Step)
        ensures
            ({
                let blocks = source_blocks(old(self)@.opener, old(self)@.item, file@, text@);
                &&& final(self)@ == (ResolveView {
                    sweep: sweep_next(sweep_with(old(self)@.sweep, blocks)),
                    ..old(self)@
                })
                &&& step@ == sweep_step(sweep_with(old(self)@.sweep, blocks))
            }),
    {
        let blocks = self.matcher.extract(file, text);
        self.on_blocks(blocks)
    }

    /// First pass: hand in the end of the sources.
    pub fn on_sources_end(&mut self) -> (step: Step)
        ensures
            final(self)@ == (ResolveView {
                sweep: sweep_next(sweep_ended(old(self)@.sweep)),
                ..old(self)@
            }),
            step@ == sweep_step(sweep_ended(old(self)@.sweep)),
    {
        self.sweep.end_sources();
        self.sweep.next_step()
    }

    /// First pass: hand in the diagnostics of the document. They are taken in
    /// the order in which the server gave them.
    pub fn on_diagnostics(&mut self, diagnostics: &Vec<Diagnostic>) -> (step: Step)
        ensures
            final(self)@ == (ResolveView {
                sweep: sweep_next(old(self)@.sweep),
                record: conflicts_noted(
                    old(self)@.record,
                    old(self)@.sweep.chunk,
                    classified_all(diagnostic_views(diagnostics@)),
                ),
                ..old(self)@
            }),
            step@ == sweep_step(old(self)@.sweep),
    {
        let findings = classify_all(diagnostics);
        self.record.note_resolve_chunk(self.sweep.chunk(), &findings);
        self.sweep.next_step()
    }

    /// The end of the first pass: there is nothing to resolve where no block was
    /// found.
    pub fn ensure_matched(&self) -> (res: Result<(), NothingMatched>)
        ensures
            res is Err <==> self@.sweep.total == 0,
    {
        ensure_blocks_matched(self.sweep.total())
    }

    fn go_on(&mut self, dialog: Dialog, text: String) -> (next: Talk)
        ensures
            final(self)@ == with_dialog(old(self)@, dialog@),
            next@ == talk(dialog@, text@),
    {
        if dialog.is_asking() {
            self.dialog = Some(dialog);
            Talk::Ask(text)
        } else {
            self.resolved = self.resolved.saturating_add(dialog.removed_count());
            let rewrite = dialog.rewrite();
            self.dialog = None;
            Talk::Done(text, rewrite)
        }
    }

    /// Second pass: hand in a source with its blocks. The label is what the
    /// platform calls the path relative to the root.
    pub fn ask_blocks(&mut self, file: &str, text: &str, blocks: Vec<ClassGroup>) -> (next: Talk)
        ensures
            talk_begun(old(self)@, final(self)@, next@, file@, text@, group_views(blocks@)),
    {
        if self.quit {
            let none = String::new();
            assert(none@ =~= Seq::empty());
            return Talk::Done(none, Rewrite::Keep);
        }
        let label = relative(file, self.root.as_str());
        let ghost name = label@;
        let questions = self.record.take_questions(file, blocks);
        let dialog = Dialog::new(text.to_string(), label, questions);
        let shown = dialog.question(&self.palette);
        let next = self.go_on(dialog, shown);
        assert(label_for(name, file@, old(self)@.root));
        next
    }

    /// Second pass: hand in a source.
    pub fn ask_source(&mut self, file: &str, text: &str) -> (next: Talk)
        ensures
            talk_begun(
                old(self)@,
                final(self)@,
                next@,
                file@,
                text@,
                source_blocks(old(self)@.opener, old(self)@.item, file@, text@),
            ),
    {
        let blocks = self.matcher.extract(file, text);
        self.ask_blocks(file, text, blocks)
    }

    /// Second pass: hand in a source. As long as a block is not diagnosed, or where
    /// there was none, nothing is asked and nothing changes, so that no source is
    /// written before the first pass is over.
    pub fn ask_diagnosed(&mut self, file: &str, text: &str) -> (next: Option<Talk>)
        ensures
            next is Some <==> all_diagnosed(old(self)@.sweep),
            match next {
                Some(begun) => talk_begun(
                    old(self)@,
                    final(self)@,
                    begun@,
                    file@,
                    text@,
                    source_blocks(old(self)@.opener, old(self)@.item, file@, text@),
                ),
                None => final(self)@ == old(self)@,
            },
    {
        if self.sweep.is_through() {
            Some(self.ask_source(file, text))
        } else {
            None
        }
    }

    /// Second pass: hand in a line that the user typed, or the end of the input.
    /// Without a dialog there is nothing to answer.
    pub fn on_line(&mut self, line: &Option<String>) -> (next: Talk)
        ensures
            ({
                let answer = answer_in(text_of(*line));
                match old(self)@.dialog {
                    Some(dialog) => {
                        &&& final(self)@ == run_answered(old(self)@, dialog, answer)
                        &&& next@ == talk(
                            answered(dialog, answer),
                            answer_text(dialog, answer, old(self)@.palette),
                        )
                    },
                    None => final(self)@ == old(self)@ && next@ == TalkView::Done(
                        Seq::empty(),
                        RewriteView::Keep,
                    ),
                }
            }),
    {
        let answer = read_answer(line);
        let mut held: Option<Dialog> = None;
        std::mem::swap(&mut held, &mut self.dialog);
        match held {
            Some(dialog) => {
                let mut dialog = dialog;
                let shown = dialog.answer(answer, &self.palette);
                if let Answer::Quit = answer {
                    self.quit = true;
                }
                self.go_on(dialog, shown)
            },
            None => {
                let none = String::new();
                assert(none@ =~= Seq::empty());
                Talk::Done(none, Rewrite::Keep)
            },
        }
    }

    /// The end of a resolution: the text to print.
    pub fn finish(self) -> (text: String)
        ensures
            text@ == resolve_summary(self@.palette, self@.resolved),
    {
        if self.resolved == 0 {
            let mut text = self.palette.bold.to_string();
            text.append("✓ no conflicts resolved");
            text.append(self.palette.reset);
            text.append("\n");
            text
        } else {
            let mut text = "\n".to_string();
            text.append(self.palette.bold);
            text.append("✓ removed ");
            text.append(decimal_text(self.resolved as u64).as_str());
            text.append(" class(es)");
            text.append(self.palette.reset);
            text.append(" across your choices");
            text.append("\n");
            text
        }
    }
}

} // verus!
