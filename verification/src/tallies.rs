//! What a check and a fix count and print of a chunk: each finding for one of its
//! blocks.
use crate::check::{chunk_report, reported_all, tally_of, ReportView, TallyView};
use crate::conflicts::{conflict_key, in_order, SeenView};
use crate::finding::{FindingView, KindView};
use crate::fix::{chunk_notes, noted, noted_all, with_notes, FixRecordView};
use crate::groups::GroupView;
use crate::palette::PaletteView;
use crate::text::decimal;
use vstd::prelude::*;
use vstd::string::*;

verus! {

/// A suggestion for a block of a chunk.
pub open spec fn suggestion_in(finding: FindingView, chunk: Seq<GroupView>) -> bool {
    finding.line < chunk.len() && finding.kind is Canonical
}

/// A suggestion for a block of a chunk that says what to write.
pub open spec fn replacement_in(finding: FindingView, chunk: Seq<GroupView>) -> bool {
    finding.line < chunk.len() && match finding.kind {
        KindView::Canonical(Some(_)) => true,
        _ => false,
    }
}

/// A finding for a block of a chunk that fails a check.
pub open spec fn failure_in(finding: FindingView, chunk: Seq<GroupView>) -> bool {
    finding.line < chunk.len() && finding.kind is Fatal
}

/// A conflict of two classes in a block of a chunk.
pub open spec fn conflict_found(finding: FindingView, chunk: Seq<GroupView>) -> bool {
    finding.line < chunk.len() && match finding.kind {
        KindView::Fatal(Some(_)) => true,
        _ => false,
    }
}

/// A finding for a block of a chunk that fails a check and names no two classes.
pub open spec fn unnamed_found(finding: FindingView, chunk: Seq<GroupView>) -> bool {
    finding.line < chunk.len() && finding.kind == KindView::Fatal(None)
}

/// Which conflict a finding is: the file and line of its block, and the two names
/// in whichever order.
pub open spec fn conflict_of(finding: FindingView, chunk: Seq<GroupView>) -> SeenView {
    let group = chunk[finding.line as int];
    let pair = match finding.kind {
        KindView::Fatal(Some(pair)) => pair,
        _ => (Seq::empty(), Seq::empty()),
    };
    (group.file, group.line as int, conflict_key(pair.0, pair.1))
}

/// The conflicts among some findings.
pub open spec fn conflicts_among(
    findings: Seq<FindingView>,
    chunk: Seq<GroupView>,
) -> Seq<SeenView> {
    findings.filter(|f: FindingView| conflict_found(f, chunk)).map_values(
        |f: FindingView| conflict_of(f, chunk),
    )
}

/// A count has grown by a number, or stands at the largest there is.
pub open spec fn grown(after: nat, before: nat, by: nat) -> bool {
    if before + by <= usize::MAX {
        after == before + by
    } else {
        after == usize::MAX
    }
}

/// A chunk makes the number of fixable issues grow by one for each suggestion for
/// one of its blocks.
pub proof fn law_every_suggestion_counts(
    tally: TallyView,
    chunk: Seq<GroupView>,
    labels: Seq<Seq<char>>,
    palette: PaletteView,
    findings: Seq<FindingView>,
)
    requires
        tally.fixable <= usize::MAX,
    ensures
        grown(
            tally_of(
                reported_all(chunk_report(tally), chunk, labels, palette, findings),
            ).fixable,
            tally.fixable,
            findings.filter(|f: FindingView| suggestion_in(f, chunk)).len(),
        ),
    decreases findings.len(),
{
    reveal(Seq::filter);
    if findings.len() > 0 {
        law_every_suggestion_counts(tally, chunk, labels, palette, findings.drop_last());
    }
}

proof fn lemma_seen(
    tally: TallyView,
    chunk: Seq<GroupView>,
    labels: Seq<Seq<char>>,
    palette: PaletteView,
    findings: Seq<FindingView>,
)
    requires
        tally.conflicts <= usize::MAX,
    ensures
        ({
            let end = reported_all(chunk_report(tally), chunk, labels, palette, findings);
            &&& end.seen.no_duplicates()
            &&& forall|key: SeenView|
                end.seen.contains(key) <==> conflicts_among(findings, chunk).contains(key)
            &&& grown(
                end.conflicts,
                tally.conflicts,
                end.seen.len() + findings.filter(
                    |f: FindingView| unnamed_found(f, chunk),
                ).len(),
            )
        }),
    decreases findings.len(),
{
    reveal(Seq::filter);
    let end = reported_all(chunk_report(tally), chunk, labels, palette, findings);
    if findings.len() == 0 {
        assert(conflicts_among(findings, chunk).len() == 0);
    } else {
        let rest = findings.drop_last();
        let last = findings.last();
        lemma_seen(tally, chunk, labels, palette, rest);
        let before = reported_all(chunk_report(tally), chunk, labels, palette, rest);
        let some = conflicts_among(rest, chunk);
        let all = conflicts_among(findings, chunk);
        if conflict_found(last, chunk) {
            let key = conflict_of(last, chunk);
            assert(all =~= some.push(key));
            assert forall|k: SeenView| all.contains(k) <==> some.contains(k) || k == key by {
                assert(all[all.len() - 1] == key);
                if some.contains(k) {
                    let i = choose|i: int| 0 <= i < some.len() && some[i] == k;
                    assert(all[i] == k);
                }
            }
            if !before.seen.contains(key) {
                assert(end.seen == before.seen.push(key));
                assert forall|k: SeenView| end.seen.contains(k) <==> before.seen.contains(k) || k
                    == key by {
                    assert(end.seen[end.seen.len() - 1] == key);
                    if before.seen.contains(k) {
                        let i = choose|i: int| 0 <= i < before.seen.len() && before.seen[i] == k;
                        assert(end.seen[i] == k);
                    }
                }
                assert forall|i: int, j: int|
                    0 <= i < end.seen.len() && 0 <= j < end.seen.len() && i != j implies end.seen[i]
                    != end.seen[j] by {
                    if i < before.seen.len() && j < before.seen.len() {
                        assert(before.seen[i] != before.seen[j]);
                    } else if i < before.seen.len() {
                        assert(before.seen.contains(before.seen[i]));
                    } else {
                        assert(before.seen.contains(before.seen[j]));
                    }
                }
            }
        } else {
            assert(all =~= some);
        }
    }
}

/// A chunk makes the number of conflicts grow by one for each conflict in one of
/// its blocks, in whichever direction and however often it comes, and by one for
/// each other finding that fails the check.
pub proof fn law_every_conflict_counts_once(
    tally: TallyView,
    chunk: Seq<GroupView>,
    labels: Seq<Seq<char>>,
    palette: PaletteView,
    findings: Seq<FindingView>,
)
    requires
        tally.conflicts <= usize::MAX,
    ensures
        grown(
            tally_of(
                reported_all(chunk_report(tally), chunk, labels, palette, findings),
            ).conflicts,
            tally.conflicts,
            conflicts_among(findings, chunk).to_set().len() + findings.filter(
                |f: FindingView| unnamed_found(f, chunk),
            ).len(),
        ),
{
    lemma_seen(tally, chunk, labels, palette, findings);
    let end = reported_all(chunk_report(tally), chunk, labels, palette, findings);
    end.seen.unique_seq_to_set();
    assert(end.seen.to_set() =~= conflicts_among(findings, chunk).to_set());
}

/// Two conflicts of a block are the same if and only if they are about the same
/// two classes. No class holds the character that keeps names apart.
pub proof fn law_same_conflict(a: Seq<char>, b: Seq<char>, c: Seq<char>, d: Seq<char>)
    requires
        !a.contains('\0'),
        !b.contains('\0'),
        !c.contains('\0'),
        !d.contains('\0'),
    ensures
        in_order(a, b) == (a, b) || in_order(a, b) == (b, a),
        in_order(a, b) == in_order(c, d) <==> (a == c && b == d) || (a == d && b == c),
        conflict_key(a, b) == conflict_key(c, d) <==> (a == c && b == d) || (a == d && b == c),
{
    crate::conflicts::law_conflict_key_symmetric(a, b);
    let x = in_order(a, b);
    let y = in_order(c, d);
    if conflict_key(a, b) == conflict_key(c, d) {
        lemma_names_apart(x.0, x.1, y.0, y.1);
    }
}

/// Names that hold no separator can be told apart in what they are joined to.
pub proof fn lemma_names_apart(a: Seq<char>, b: Seq<char>, c: Seq<char>, d: Seq<char>)
    requires
        !a.contains('\0'),
        !c.contains('\0'),
        a + "\0"@ + b == c + "\0"@ + d,
    ensures
        a == c,
        b == d,
{
    reveal_strlit("\0");
    let left = a + "\0"@ + b;
    let right = c + "\0"@ + d;
    if a.len() < c.len() {
        assert(left[a.len() as int] == '\0');
        assert(right[a.len() as int] == c[a.len() as int]);
        assert(c.contains(c[a.len() as int]));
    } else if c.len() < a.len() {
        assert(right[c.len() as int] == '\0');
        assert(left[c.len() as int] == a[c.len() as int]);
        assert(a.contains(a[c.len() as int]));
    }
    assert(a =~= c) by {
        assert forall|i: int| 0 <= i < a.len() implies a[i] == c[i] by {
            assert(left[i] == a[i] && right[i] == c[i]);
        }
    }
    assert(left.len() == right.len());
    assert(b.len() == d.len());
    assert(b =~= d) by {
        assert forall|i: int| 0 <= i < b.len() implies b[i] == d[i] by {
            assert(left[a.len() + 1 + i] == b[i] && right[c.len() + 1 + i] == d[i]);
        }
    }
}

/// The line that a report has for a finding.
pub open spec fn shown_line(
    colour: Seq<char>,
    word: Seq<char>,
    gap: Seq<char>,
    number: u32,
    text: Seq<char>,
    palette: PaletteView,
) -> Seq<char> {
    "  "@ + colour + word + palette.reset + gap + palette.dim + decimal(number as nat)
        + palette.reset + "  "@ + text + "\n"@
}

/// What stands before the line of a finding: the name of its file, where the
/// finding shown before is not of the same file.
pub open spec fn shown_file(
    palette: PaletteView,
    label: Seq<char>,
    file: Seq<char>,
    last_file: Option<Seq<char>>,
) -> Seq<char> {
    if last_file == Some(file) {
        ""@
    } else {
        "\n"@ + palette.bold + label + palette.reset + "\n"@
    }
}

/// One more finding of a chunk is shown behind the others, with the line of its
/// block and what it says, under the name of its file. A finding for no block is
/// not, nor is a conflict that was shown.
pub proof fn law_each_finding_is_shown(
    tally: TallyView,
    chunk: Seq<GroupView>,
    labels: Seq<Seq<char>>,
    palette: PaletteView,
    findings: Seq<FindingView>,
    finding: FindingView,
)
    ensures
        ({
            let report = chunk_report(tally);
            let before = reported_all(report, chunk, labels, palette, findings);
            let after = reported_all(report, chunk, labels, palette, findings.push(finding));
            let group = chunk[finding.line as int];
            let head = shown_file(
                palette,
                labels[finding.line as int],
                group.file,
                before.last_file,
            );
            let line = match finding.kind {
                KindView::Canonical(_) => shown_line(
                    palette.warn,
                    "fix"@,
                    "  "@,
                    group.line,
                    finding.message,
                    palette,
                ),
                KindView::Fatal(Some(pair)) => shown_line(
                    palette.error,
                    "conflict"@,
                    "  "@,
                    group.line,
                    pair.0 + "  ⟷  "@ + pair.1,
                    palette,
                ),
                KindView::Fatal(None) => shown_line(
                    palette.error,
                    "error"@,
                    "  "@,
                    group.line,
                    finding.message,
                    palette,
                ),
                KindView::Minor => shown_line(
                    palette.dim,
                    "note"@,
                    "  "@,
                    group.line,
                    finding.message,
                    palette,
                ),
            };
            let again = conflict_found(finding, chunk) && conflicts_among(
                findings,
                chunk,
            ).contains(conflict_of(finding, chunk));
            if finding.line >= chunk.len() || again {
                after.out == before.out && after.last_file == before.last_file
            } else {
                after.out == before.out + head + line && after.last_file == Some(group.file)
            }
        }),
{
    let report = chunk_report(tally);
    assert(findings.push(finding).drop_last() =~= findings);
    reveal_strlit("");
    assert(""@ =~= Seq::<char>::empty());
    lemma_seen_only(report, chunk, labels, palette, findings);
}

proof fn lemma_seen_only(
    report: ReportView,
    chunk: Seq<GroupView>,
    labels: Seq<Seq<char>>,
    palette: PaletteView,
    findings: Seq<FindingView>,
)
    requires
        report.seen.len() == 0,
    ensures
        forall|key: SeenView|
            reported_all(report, chunk, labels, palette, findings).seen.contains(key)
                <==> conflicts_among(findings, chunk).contains(key),
{
    let tally = TallyView { last_file: report.last_file, fixable: 0, conflicts: 0 };
    lemma_seen(tally, chunk, labels, palette, findings);
    lemma_seen_same(report, chunk_report(tally), chunk, labels, palette, findings);
}

proof fn lemma_seen_same(
    a: ReportView,
    b: ReportView,
    chunk: Seq<GroupView>,
    labels: Seq<Seq<char>>,
    palette: PaletteView,
    findings: Seq<FindingView>,
)
    requires
        a.seen =~= b.seen,
    ensures
        reported_all(a, chunk, labels, palette, findings).seen == reported_all(
            b,
            chunk,
            labels,
            palette,
            findings,
        ).seen,
    decreases findings.len(),
{
    if findings.len() > 0 {
        lemma_seen_same(a, b, chunk, labels, palette, findings.drop_last());
    }
}

/// A chunk without findings prints nothing and counts nothing.
pub proof fn law_no_findings(
    tally: TallyView,
    chunk: Seq<GroupView>,
    labels: Seq<Seq<char>>,
    palette: PaletteView,
)
    ensures
        ({
            let end = reported_all(chunk_report(tally), chunk, labels, palette, Seq::empty());
            end.out.len() == 0 && tally_of(end) == tally
        }),
{
}

/// A fix counts each suggestion for a block that says what to write as fixed, and
/// each finding for a block that fails a check as a conflict that is left.
pub proof fn law_a_fix_counts_what_it_finds(
    record: FixRecordView,
    chunk: Seq<GroupView>,
    labels: Seq<Seq<char>>,
    palette: PaletteView,
    findings: Seq<FindingView>,
)
    requires
        record.applied <= usize::MAX,
        record.conflicts <= usize::MAX,
    ensures
        ({
            let end = with_notes(
                record,
                noted_all(chunk_notes(record), chunk, labels, palette, findings),
            );
            &&& grown(
                end.applied,
                record.applied,
                findings.filter(|f: FindingView| replacement_in(f, chunk)).len(),
            )
            &&& grown(
                end.conflicts,
                record.conflicts,
                findings.filter(|f: FindingView| failure_in(f, chunk)).len(),
            )
            &&& end.reformatted == record.reformatted
        }),
    decreases findings.len(),
{
    reveal(Seq::filter);
    if findings.len() > 0 {
        law_a_fix_counts_what_it_finds(record, chunk, labels, palette, findings.drop_last());
    }
}

/// A fix shows each suggestion that it takes up, with the line of its block, under
/// the name of its file, and nothing else.
pub proof fn law_each_fix_is_shown(
    record: FixRecordView,
    chunk: Seq<GroupView>,
    labels: Seq<Seq<char>>,
    palette: PaletteView,
    findings: Seq<FindingView>,
    finding: FindingView,
)
    ensures
        noted_all(chunk_notes(record), chunk, labels, palette, Seq::empty()).out.len() == 0,
        ({
            let notes = chunk_notes(record);
            let before = noted_all(notes, chunk, labels, palette, findings);
            let after = noted_all(notes, chunk, labels, palette, findings.push(finding));
            let group = chunk[finding.line as int];
            let head = shown_file(
                palette,
                labels[finding.line as int],
                group.file,
                before.last_file,
            );
            let line = shown_line(
                palette.warn,
                "fix"@,
                " "@,
                group.line,
                finding.message,
                palette,
            );
            if replacement_in(finding, chunk) {
                after.out == before.out + head + line && after.last_file == Some(group.file)
            } else {
                after.out == before.out && after.last_file == before.last_file
            }
        }),
{
    assert(findings.push(finding).drop_last() =~= findings);
    reveal_strlit("");
    assert(""@ =~= Seq::<char>::empty());
    let notes = chunk_notes(record);
    let before = noted_all(notes, chunk, labels, palette, findings);
    let after = noted(before, chunk, labels, palette, finding);
    let group = chunk[finding.line as int];
    let head = shown_file(palette, labels[finding.line as int], group.file, before.last_file);
    let line = shown_line(palette.warn, "fix"@, " "@, group.line, finding.message, palette);
    if replacement_in(finding, chunk) {
        assert(after.out =~= before.out + head + line);
    }
}

} // verus!
