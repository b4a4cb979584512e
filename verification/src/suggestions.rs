//! From the diagnostics of a chunk to the class lists that a fix writes: each
//! suggestion replaces the class that it is about.
use crate::blocks::items_at;
use crate::document::CLASS_VALUE_COLUMN;
use crate::finding::{by_position, classified, classified_all, FindingView, KindView};
use crate::fix::{fixed_list, noted, noted_all, value_column, FixNotes};
use crate::groups::GroupView;
use crate::layout::{
    class_edits, formatted, indent_at, law_suggestions_are_applied, lemma_front_grows,
    picks_in_order, plain_names, replaced, value_front, without_repeats, ValueEditView,
};
use crate::order::{ascending, law_ascending, ranks_before};
use crate::palette::PaletteView;
use crate::protocol::DiagnosticView;
use vstd::prelude::*;

verus! {

/// A finding that suggests a replacement in the block of a line.
pub open spec fn suggests(finding: FindingView, line: int) -> bool {
    finding.line == line && match finding.kind {
        KindView::Canonical(Some(_)) => true,
        _ => false,
    }
}

/// What a finding suggests.
pub open spec fn suggestion(finding: FindingView) -> Seq<char> {
    match finding.kind {
        KindView::Canonical(Some(replacement)) => replacement,
        _ => Seq::empty(),
    }
}

/// The edits that some findings suggest for the block of a line.
pub open spec fn suggested(findings: Seq<FindingView>, line: int) -> Seq<ValueEditView>
    decreases findings.len(),
{
    if findings.len() == 0 {
        Seq::empty()
    } else {
        let before = suggested(findings.drop_last(), line);
        let last = findings.last();
        if suggests(last, line) {
            before.push(
                ValueEditView {
                    start: value_column(last.start),
                    end: value_column(last.end),
                    replacement: suggestion(last),
                },
            )
        } else {
            before
        }
    }
}

/// No other block of a chunk has the identity of the block of a line.
pub open spec fn alone_in(chunk: Seq<GroupView>, line: int) -> bool {
    forall|m: int|
        0 <= m < chunk.len() && m != line ==> (#[trigger] chunk[m]).file != chunk[line].file
            || chunk[m].start != chunk[line].start
}

/// What is recorded of a block are the suggestions for its line, in their order,
/// and nothing else.
pub proof fn law_suggestions_are_recorded(
    notes: FixNotes,
    chunk: Seq<GroupView>,
    labels: Seq<Seq<char>>,
    palette: PaletteView,
    findings: Seq<FindingView>,
    line: int,
)
    requires
        0 <= line < chunk.len(),
        alone_in(chunk, line),
    ensures
        ({
            let key = (chunk[line].file, chunk[line].start);
            items_at(noted_all(notes, chunk, labels, palette, findings).edits, key) == items_at(
                notes.edits,
                key,
            ) + suggested(findings, line)
        }),
    decreases findings.len(),
{
    let key = (chunk[line].file, chunk[line].start);
    if findings.len() == 0 {
        assert(items_at(notes.edits, key) + suggested(findings, line) =~= items_at(
            notes.edits,
            key,
        ));
    } else {
        let rest = findings.drop_last();
        let last = findings.last();
        law_suggestions_are_recorded(notes, chunk, labels, palette, rest, line);
        let before = noted_all(notes, chunk, labels, palette, rest);
        let after = noted(before, chunk, labels, palette, last);
        if last.line < chunk.len() && last.line != line {
            let other = chunk[last.line as int];
            assert((other.file, other.start) != key);
            assert(items_at(after.edits, key) == items_at(before.edits, key));
        }
        assert(items_at(after.edits, key) =~= items_at(notes.edits, key) + suggested(
            findings,
            line,
        ));
    }
}

/// The class of a block that begins at a place of its value.
pub open spec fn class_at(classes: Seq<Seq<char>>, place: int) -> int {
    choose|k: int| 0 <= k < classes.len() && #[trigger] value_front(classes, k).len() == place
}

/// A finding whose columns are those of a class of its block.
pub open spec fn marks_class(finding: FindingView, classes: Seq<Seq<char>>) -> bool {
    exists|k: int|
        0 <= k < classes.len() && finding.start == CLASS_VALUE_COLUMN + (#[trigger] value_front(
            classes,
            k,
        )).len() && finding.end == finding.start + classes[k].len()
}

/// The classes that some findings suggest to replace in the block of a line, and
/// what by.
pub open spec fn picked(
    findings: Seq<FindingView>,
    classes: Seq<Seq<char>>,
    line: int,
) -> Seq<(int, Seq<char>)>
    decreases findings.len(),
{
    if findings.len() == 0 {
        Seq::empty()
    } else {
        let before = picked(findings.drop_last(), classes, line);
        let last = findings.last();
        if suggests(last, line) {
            before.push((class_at(classes, last.start - CLASS_VALUE_COLUMN), suggestion(last)))
        } else {
            before
        }
    }
}

proof fn lemma_class_at(finding: FindingView, classes: Seq<Seq<char>>)
    requires
        marks_class(finding, classes),
    ensures
        ({
            let k = class_at(classes, finding.start - CLASS_VALUE_COLUMN);
            &&& 0 <= k < classes.len()
            &&& finding.start == CLASS_VALUE_COLUMN + value_front(classes, k).len()
            &&& finding.end == finding.start + classes[k].len()
        }),
{
    let k = choose|k: int|
        0 <= k < classes.len() && finding.start == CLASS_VALUE_COLUMN + (#[trigger] value_front(
            classes,
            k,
        )).len() && finding.end == finding.start + classes[k].len();
    let place = finding.start - CLASS_VALUE_COLUMN;
    assert(value_front(classes, k).len() == place);
    let found = class_at(classes, place);
    assert(0 <= found < classes.len() && value_front(classes, found).len() == place);
    if found < k {
        lemma_front_grows(classes, found, k);
    } else if k < found {
        lemma_front_grows(classes, k, found);
    }
}

/// The suggestions of a line mark classes, one class each, from left to right.
spec fn left_to_right(
    findings: Seq<FindingView>,
    classes: Seq<Seq<char>>,
    line: int,
) -> bool {
    &&& forall|i: int|
        0 <= i < findings.len() && suggests(#[trigger] findings[i], line) ==> marks_class(
            findings[i],
            classes,
        )
    &&& forall|i: int, j: int|
        0 <= i < j < findings.len() && suggests(#[trigger] findings[i], line) && suggests(
            #[trigger] findings[j],
            line,
        ) ==> findings[i].start < findings[j].start
}

/// A finding suggests to replace a class.
spec fn comes_from(
    pick: (int, Seq<char>),
    findings: Seq<FindingView>,
    classes: Seq<Seq<char>>,
    line: int,
) -> bool {
    exists|j: int|
        0 <= j < findings.len() && suggests(#[trigger] findings[j], line) && findings[j].start
            == CLASS_VALUE_COLUMN + value_front(classes, pick.0).len()
}

proof fn lemma_picked(findings: Seq<FindingView>, classes: Seq<Seq<char>>, line: int)
    requires
        left_to_right(findings, classes, line),
    ensures
        picks_in_order(picked(findings, classes, line), classes.len()),
        suggested(findings, line) == class_edits(classes, picked(findings, classes, line)),
        forall|i: int|
            0 <= i < picked(findings, classes, line).len() ==> comes_from(
                #[trigger] picked(findings, classes, line)[i],
                findings,
                classes,
                line,
            ),
    decreases findings.len(),
{
    let picks = picked(findings, classes, line);
    if findings.len() == 0 {
        assert(suggested(findings, line) =~= class_edits(classes, picks));
    } else {
        let rest = findings.drop_last();
        let last = findings.last();
        let n = findings.len() - 1;
        assert(left_to_right(rest, classes, line)) by {
            assert forall|i: int| 0 <= i < rest.len() && suggests(
                #[trigger] rest[i],
                line,
            ) implies marks_class(rest[i], classes) by {
                assert(rest[i] == findings[i]);
            }
            assert forall|i: int, j: int|
                0 <= i < j < rest.len() && suggests(#[trigger] rest[i], line) && suggests(
                    #[trigger] rest[j],
                    line,
                ) implies rest[i].start < rest[j].start by {
                assert(rest[i] == findings[i] && rest[j] == findings[j]);
            }
        }
        lemma_picked(rest, classes, line);
        let before = picked(rest, classes, line);
        assert forall|i: int| 0 <= i < before.len() implies comes_from(
            #[trigger] before[i],
            findings,
            classes,
            line,
        ) by {
            assert(comes_from(before[i], rest, classes, line));
            let j = choose|j: int|
                0 <= j < rest.len() && suggests(#[trigger] rest[j], line) && rest[j].start
                    == CLASS_VALUE_COLUMN + value_front(classes, before[i].0).len();
            assert(findings[j] == rest[j]);
        }
        if suggests(last, line) {
            assert(last == findings[n]);
            assert(marks_class(findings[n], classes));
            lemma_class_at(last, classes);
            let k = class_at(classes, last.start - CLASS_VALUE_COLUMN);
            assert(picks == before.push((k, suggestion(last))));
            assert forall|i: int| 0 <= i < before.len() implies (#[trigger] before[i]).0 < k by {
                assert(comes_from(before[i], rest, classes, line));
                let j = choose|j: int|
                    0 <= j < rest.len() && suggests(#[trigger] rest[j], line) && rest[j].start
                        == CLASS_VALUE_COLUMN + value_front(classes, before[i].0).len();
                assert(findings[j] == rest[j]);
                assert(findings[j].start < findings[n].start);
                assert(0 <= before[i].0 < classes.len());
                if k < before[i].0 {
                    lemma_front_grows(classes, k, before[i].0);
                }
            }
            assert forall|i: int, j: int| 0 <= i < j < picks.len() implies (#[trigger] picks[i]).0
                < (#[trigger] picks[j]).0 by {
                assert(picks[i] == before[i]);
                if j < before.len() {
                    assert(picks[j] == before[j]);
                }
            }
            assert forall|i: int| 0 <= i < picks.len() implies 0 <= (#[trigger] picks[i]).0
                < classes.len() by {
                if i < before.len() {
                    assert(picks[i] == before[i]);
                }
            }
            assert(suggested(findings, line) =~= class_edits(classes, picks));
            assert forall|i: int| 0 <= i < picks.len() implies comes_from(
                #[trigger] picks[i],
                findings,
                classes,
                line,
            ) by {
                if i < before.len() {
                    assert(picks[i] == before[i]);
                } else {
                    assert(suggests(findings[n], line));
                }
            }
        } else {
            assert(picks == before);
        }
    }
}

/// The suggestions of a line come for classes of its block, each class once.
pub open spec fn for_classes(
    diagnostics: Seq<DiagnosticView>,
    classes: Seq<Seq<char>>,
    line: int,
) -> bool {
    &&& forall|i: int|
        0 <= i < diagnostics.len() && suggests(
            classified(#[trigger] diagnostics[i]),
            line,
        ) ==> marks_class(classified(diagnostics[i]), classes)
    &&& forall|i: int, j: int|
        0 <= i < diagnostics.len() && 0 <= j < diagnostics.len() && i != j && suggests(
            classified(#[trigger] diagnostics[i]),
            line,
        ) && suggests(classified(#[trigger] diagnostics[j]), line)
            ==> diagnostics[i].range.start.character != diagnostics[j].range.start.character
}

proof fn lemma_by_position(
    diagnostics: Seq<DiagnosticView>,
    classes: Seq<Seq<char>>,
    line: int,
)
    requires
        for_classes(diagnostics, classes, line),
    ensures
        left_to_right(classified_all(by_position(diagnostics)), classes, line),
{
    let keys = diagnostics.map_values(|d: DiagnosticView| d.range.start.rank());
    let order = ascending(keys);
    let findings = classified_all(by_position(diagnostics));
    law_ascending(keys);
    assert forall|i: int| 0 <= i < findings.len() && suggests(
        #[trigger] findings[i],
        line,
    ) implies marks_class(findings[i], classes) by {
        assert(findings[i] == classified(diagnostics[order[i]]));
    }
    assert forall|i: int, j: int|
        0 <= i < j < findings.len() && suggests(#[trigger] findings[i], line) && suggests(
            #[trigger] findings[j],
            line,
        ) implies findings[i].start < findings[j].start by {
        let a = order[i];
        let b = order[j];
        assert(ranks_before(keys, a, b));
        assert(findings[i] == classified(diagnostics[a]));
        assert(findings[j] == classified(diagnostics[b]));
        assert(keys[a] == diagnostics[a].range.start.rank());
        assert(keys[b] == diagnostics[b].range.start.rank());
        assert(diagnostics[a].range.start.line == diagnostics[b].range.start.line);
        assert(diagnostics[a].range.start.character != diagnostics[b].range.start.character);
    }
}

/// From the diagnostics of a chunk to the list of a block: in whatever order the
/// server gives its suggestions, each replaces the class that it marks, the
/// other classes stay, and what comes out is written without repeats, one class
/// per line.
pub proof fn law_diagnostics_become_the_list(
    notes: FixNotes,
    chunk: Seq<GroupView>,
    labels: Seq<Seq<char>>,
    palette: PaletteView,
    diagnostics: Seq<DiagnosticView>,
    line: int,
    bytes: Seq<u8>,
)
    requires
        0 <= line < chunk.len(),
        alone_in(chunk, line),
        items_at(notes.edits, (chunk[line].file, chunk[line].start)).len() == 0,
        for_classes(diagnostics, chunk[line].classes, line),
        plain_names(
            replaced(
                chunk[line].classes,
                picked(
                    classified_all(by_position(diagnostics)),
                    chunk[line].classes,
                    line,
                ),
            ),
        ),
    ensures
        ({
            let group = chunk[line];
            let findings = classified_all(by_position(diagnostics));
            let picks = picked(findings, group.classes, line);
            let edits = items_at(
                noted_all(notes, chunk, labels, palette, findings).edits,
                (group.file, group.start),
            );
            &&& picks_in_order(picks, group.classes.len())
            &&& edits == class_edits(group.classes, picks)
            &&& fixed_list(bytes, group, edits) == formatted(
                without_repeats(replaced(group.classes, picks)),
                indent_at(bytes, group.start),
            )
        }),
{
    let group = chunk[line];
    let findings = classified_all(by_position(diagnostics));
    lemma_by_position(diagnostics, group.classes, line);
    lemma_picked(findings, group.classes, line);
    law_suggestions_are_recorded(notes, chunk, labels, palette, findings, line);
    let none = items_at(notes.edits, (group.file, group.start));
    assert(none + suggested(findings, line) =~= suggested(findings, line));
    law_suggestions_are_applied(group.classes, picked(findings, group.classes, line));
}

} // verus!
