//! Checking a corpus: the diagnostics of each chunk are reported as they come,
//! and counted.
use crate::conflicts::{conflict_key, order_names, SeenConflicts, SeenView};
use crate::document::{ensure_blocks_matched, NothingMatched};
use crate::finding::{
    by_position, classified_all, classify_by_position, finding_views, Finding, FindingView, Kind,
    KindView,
};
use crate::groups::{group_views, source_blocks, ClassGroup, GroupMatcher, GroupView};
use crate::palette::{Palette, PaletteView};
use crate::paths::{label_for, relative};
use crate::protocol::{diagnostic_views, Diagnostic};
use crate::sweep::{
    capped, fresh_sweep, sweep_ended, sweep_next, sweep_step, sweep_with, Step, Sweep,
    SweepView,
};
use crate::text::{decimal, decimal_text, same_text, strings, text_of};
use vstd::prelude::*;
use vstd::string::*;

verus! {

/// The header of a file's findings; it stands where the file differs from the
/// one before.
pub open spec fn header(
    palette: PaletteView,
    label: Seq<char>,
    file: Seq<char>,
    last_file: Option<Seq<char>>,
) -> Seq<char> {
    if last_file == Some(file) {
        Seq::empty()
    } else {
        "\n"@ + palette.bold + label + palette.reset + "\n"@
    }
}

/// Print the file's path as a header the first time a diagnostic in it is
/// shown.
pub fn print_file_header(
    out: &mut String,
    palette: &Palette,
    label: &str,
    file: &str,
    last_file: &mut Option<String>,
)
    ensures
        final(out)@ == old(out)@ + header(palette@, label@, file@, text_of(*old(last_file))),
        text_of(*final(last_file)) == Some(file@),
{
    let shown = match &*last_file {
        Some(last) => same_text(last.as_str(), file),
        None => false,
    };
    if shown {
        assert(out@ =~= old(out)@ + Seq::<char>::empty());
    } else {
        out.append("\n");
        out.append(palette.bold);
        out.append(label);
        out.append(palette.reset);
        out.append("\n");
        assert(out@ =~= old(out)@ + header(palette@, label@, file@, text_of(*old(last_file))));
        *last_file = Some(file.to_string());
    }
}

/// The labels of a chunk's blocks: each is what its file may be called relative
/// to a root.
pub open spec fn labels_fit(
    labels: Seq<Seq<char>>,
    chunk: Seq<GroupView>,
    root: Seq<char>,
) -> bool {
    labels.len() == chunk.len() && forall|i: int|
        0 <= i < chunk.len() ==> label_for(#[trigger] labels[i], chunk[i].file, root)
}

/// The paths of a chunk's blocks relative to a root.
pub fn chunk_labels(chunk: &Vec<ClassGroup>, root: &str) -> (labels: Vec<String>)
    ensures
        labels_fit(strings(labels@), group_views(chunk@), root@),
{
    let mut labels: Vec<String> = Vec::new();
    let mut i: usize = 0;
    while i < chunk.len()
        invariant
            i <= chunk@.len(),
            labels@.len() == i,
            forall|j: int| 0 <= j < i ==> label_for(
                (#[trigger] labels@[j])@,
                chunk@[j].file@,
                root@,
            ),
        decreases chunk@.len() - i,
    {
        labels.push(relative(chunk[i].file.as_str(), root));
        i += 1;
    }
    proof {
        let all = strings(labels@);
        assert forall|j: int| 0 <= j < all.len() implies label_for(
            #[trigger] all[j],
            group_views(chunk@)[j].file,
            root@,
        ) by {
            assert(all[j] == labels@[j]@);
        }
    }
    labels
}

/// What a report has shown and counted so far. The conflicts that were seen are
/// those of one chunk.
pub struct ReportView {
    pub last_file: Option<Seq<char>>,
    pub fixable: nat,
    pub conflicts: nat,
    pub seen: Seq<SeenView>,
    pub out: Seq<char>,
}

/// How a finding is printed: what it is, the line of its block, and what it
/// says.
pub open spec fn finding_line(
    palette: PaletteView,
    colour: Seq<char>,
    word: Seq<char>,
    line: u32,
    text: Seq<char>,
) -> Seq<char> {
    "  "@ + colour + word + palette.reset + "  "@ + palette.dim + decimal(line as nat)
        + palette.reset + "  "@ + text + "\n"@
}

fn print_finding(
    out: &mut String,
    palette: &Palette,
    colour: &str,
    word: &str,
    line: u32,
    text: &str,
)
    ensures
        final(out)@ == old(out)@ + finding_line(palette@, colour@, word@, line, text@),
{
    out.append("  ");
    out.append(colour);
    out.append(word);
    out.append(palette.reset);
    out.append("  ");
    out.append(palette.dim);
    out.append(decimal_text(line as u64).as_str());
    out.append(palette.reset);
    out.append("  ");
    out.append(text);
    out.append("\n");
    assert(out@ =~= old(out)@ + finding_line(palette@, colour@, word@, line, text@));
}

/// The report after one more finding. Each one that names a block is printed. A
/// suggestion counts as fixable, anything else that fails a check as a conflict,
/// and what does not fail it counts as nothing.
pub open spec fn reported(
    report: ReportView,
    chunk: Seq<GroupView>,
    labels: Seq<Seq<char>>,
    palette: PaletteView,
    finding: FindingView,
) -> ReportView {
    if finding.line >= chunk.len() {
        report
    } else {
        let group = chunk[finding.line as int];
        let label = labels[finding.line as int];
        let head = header(palette, label, group.file, report.last_file);
        let line = group.line;
        match finding.kind {
            KindView::Canonical(_) => ReportView {
                last_file: Some(group.file),
                fixable: capped(report.fixable + 1),
                out: report.out + head + finding_line(
                    palette,
                    palette.warn,
                    "fix"@,
                    line,
                    finding.message,
                ),
                ..report
            },
            KindView::Fatal(Some(pair)) => {
                let key = (group.file, group.line as int, conflict_key(pair.0, pair.1));
                if report.seen.contains(key) {
                    report
                } else {
                    ReportView {
                        last_file: Some(group.file),
                        conflicts: capped(report.conflicts + 1),
                        seen: report.seen.push(key),
                        out: report.out + head + finding_line(
                            palette,
                            palette.error,
                            "conflict"@,
                            line,
                            pair.0 + "  ⟷  "@ + pair.1,
                        ),
                        ..report
                    }
                }
            },
            KindView::Fatal(None) => ReportView {
                last_file: Some(group.file),
                conflicts: capped(report.conflicts + 1),
                out: report.out + head + finding_line(
                    palette,
                    palette.error,
                    "error"@,
                    line,
                    finding.message,
                ),
                ..report
            },
            KindView::Minor => ReportView {
                last_file: Some(group.file),
                out: report.out + head + finding_line(
                    palette,
                    palette.dim,
                    "note"@,
                    line,
                    finding.message,
                ),
                ..report
            },
        }
    }
}

/// The report after some more findings.
pub open spec fn reported_all(
    report: ReportView,
    chunk: Seq<GroupView>,
    labels: Seq<Seq<char>>,
    palette: PaletteView,
    findings: Seq<FindingView>,
) -> ReportView
    decreases findings.len(),
{
    if findings.len() == 0 {
        report
    } else {
        reported(
            reported_all(report, chunk, labels, palette, findings.drop_last()),
            chunk,
            labels,
            palette,
            findings.last(),
        )
    }
}

/// What a check has counted, and the file whose findings came last.
pub struct Tally {
    last_file: Option<String>,
    fixable: usize,
    conflicts: usize,
}

pub struct TallyView {
    pub last_file: Option<Seq<char>>,
    pub fixable: nat,
    pub conflicts: nat,
}

impl View for Tally {
    type V = TallyView;

    closed spec fn view(&self) -> TallyView {
        TallyView {
            last_file: text_of(self.last_file),
            fixable: self.fixable as nat,
            conflicts: self.conflicts as nat,
        }
    }
}

/// The report of a new chunk.
pub open spec fn chunk_report(tally: TallyView) -> ReportView {
    ReportView {
        last_file: tally.last_file,
        fixable: tally.fixable,
        conflicts: tally.conflicts,
        seen: Seq::empty(),
        out: Seq::empty(),
    }
}

/// What remains of a chunk's report for the next one.
pub open spec fn tally_of(report: ReportView) -> TallyView {
    TallyView {
        last_file: report.last_file,
        fixable: report.fixable,
        conflicts: report.conflicts,
    }
}

impl Tally {
    pub fn new() -> (tally: Tally)
        ensures
            tally@ == (TallyView { last_file: None, fixable: 0, conflicts: 0 }),
    {
        Tally { last_file: None, fixable: 0, conflicts: 0 }
    }

    /// Report one chunk's findings and count them. A conflict that comes twice
    /// in a chunk, in either direction, is shown once.
    pub fn report_check_chunk(
        &mut self,
        chunk: &Vec<ClassGroup>,
        labels: &Vec<String>,
        palette: &Palette,
        findings: &Vec<Finding>,
    ) -> (out: String)
        requires
            labels@.len() == chunk@.len(),
        ensures
            out@ == reported_all(
                chunk_report(old(self)@),
                group_views(chunk@),
                strings(labels@),
                palette@,
                finding_views(findings@),
            ).out,
            final(self)@ == tally_of(
                reported_all(
                    chunk_report(old(self)@),
                    group_views(chunk@),
                    strings(labels@),
                    palette@,
                    finding_views(findings@),
                ),
            ),
    {
        let mut out = String::new();
        let mut seen = SeenConflicts::new();
        let mut i: usize = 0;
        let ghost all = finding_views(findings@);
        let ghost groups = group_views(chunk@);
        let ghost names = strings(labels@);
        let ghost start = chunk_report(self@);
        while i < findings.len()
            invariant
                i <= findings@.len(),
                labels@.len() == chunk@.len(),
                all == finding_views(findings@),
                groups == group_views(chunk@),
                names == strings(labels@),
                reported_all(start, groups, names, palette@, all.take(i as int)) == (ReportView {
                    last_file: text_of(self.last_file),
                    fixable: self.fixable as nat,
                    conflicts: self.conflicts as nat,
                    seen: seen@,
                    out: out@,
                }),
            decreases findings@.len() - i,
        {
            let finding = &findings[i];
            proof {
                assert(all.take(i + 1).drop_last() =~= all.take(i as int));
                assert(all.take(i + 1).last() == finding@);
            }
            let at: usize = finding.line as usize;
            if at < chunk.len() {
                let group = &chunk[at];
                let label = labels[at].as_str();
                assert(groups[at as int] == group@);
                assert(names[at as int] == label@);
                let file = group.file.as_str();
                match &finding.kind {
                    Kind::Canonical(_) => {
                        print_file_header(
                            &mut out,
                            palette,
                            label,
                            file,
                            &mut self.last_file,
                        );
                        print_finding(
                            &mut out,
                            palette,
                            palette.warn,
                            "fix",
                            group.line,
                            finding.message.as_str(),
                        );
                        self.fixable = self.fixable.saturating_add(1);
                    },
                    Kind::Fatal(Some(pair)) => {
                        let ordered = order_names(pair.0.as_str(), pair.1.as_str());
                        if seen.insert(file, group.line as usize, &ordered) {
                            let mut text = pair.0.clone();
                            text.append("  ⟷  ");
                            text.append(pair.1.as_str());
                            print_file_header(
                                &mut out,
                                palette,
                                label,
                                file,
                                &mut self.last_file,
                            );
                            print_finding(
                                &mut out,
                                palette,
                                palette.error,
                                "conflict",
                                group.line,
                                text.as_str(),
                            );
                            self.conflicts = self.conflicts.saturating_add(1);
                        }
                    },
                    Kind::Fatal(None) => {
                        print_file_header(
                            &mut out,
                            palette,
                            label,
                            file,
                            &mut self.last_file,
                        );
                        print_finding(
                            &mut out,
                            palette,
                            palette.error,
                            "error",
                            group.line,
                            finding.message.as_str(),
                        );
                        self.conflicts = self.conflicts.saturating_add(1);
                    },
                    Kind::Minor => {
                        print_file_header(
                            &mut out,
                            palette,
                            label,
                            file,
                            &mut self.last_file,
                        );
                        print_finding(
                            &mut out,
                            palette,
                            palette.dim,
                            "note",
                            group.line,
                            finding.message.as_str(),
                        );
                    },
                }
            }
            i += 1;
        }
        assert(all.take(i as int) =~= all);
        out
    }
}

/// A finding that a check counts: it names a block, and is a suggestion or fails
/// the check.
pub open spec fn counts(finding: FindingView, chunk: Seq<GroupView>) -> bool {
    finding.line < chunk.len() && (finding.kind is Canonical || finding.kind is Fatal)
}

/// The number of findings that fail a check without naming two classes.
pub open spec fn unnamed(findings: Seq<FindingView>, chunk: Seq<GroupView>) -> nat
    decreases findings.len(),
{
    if findings.len() == 0 {
        0
    } else {
        let before = unnamed(findings.drop_last(), chunk);
        if findings.last().line < chunk.len() && findings.last().kind == KindView::Fatal(None) {
            before + 1
        } else {
            before
        }
    }
}

/// A chunk leaves the counts at zero if and only if none of its findings for one
/// of its blocks is a suggestion or fails the check.
pub proof fn law_clean_chunk(
    report: ReportView,
    chunk: Seq<GroupView>,
    labels: Seq<Seq<char>>,
    palette: PaletteView,
    findings: Seq<FindingView>,
)
    requires
        report.fixable == 0,
        report.conflicts == 0,
        report.seen.len() == 0,
    ensures
        ({
            let end = reported_all(report, chunk, labels, palette, findings);
            (end.fixable == 0 && end.conflicts == 0) <==> (forall|i: int|
                0 <= i < findings.len() ==> !counts(#[trigger] findings[i], chunk))
        }),
        ({
            let end = reported_all(report, chunk, labels, palette, findings);
            end.seen.len() > 0 ==> end.conflicts > 0
        }),
    decreases findings.len(),
{
    if findings.len() > 0 {
        let rest = findings.drop_last();
        let last = findings.last();
        law_clean_chunk(report, chunk, labels, palette, rest);
        let before = reported_all(report, chunk, labels, palette, rest);
        let end = reported_all(report, chunk, labels, palette, findings);
        if forall|i: int| 0 <= i < findings.len() ==> !counts(#[trigger] findings[i], chunk) {
            assert forall|i: int| 0 <= i < rest.len() implies !counts(#[trigger] rest[i], chunk) by {
                assert(rest[i] == findings[i]);
            }
            assert(!counts(findings[findings.len() - 1], chunk));
        } else {
            let i = choose|i: int| 0 <= i < findings.len() && counts(#[trigger] findings[i], chunk);
            if i < rest.len() {
                assert(counts(rest[i], chunk));
                assert(before.fixable > 0 || before.conflicts > 0);
            } else {
                assert(counts(last, chunk));
                if let KindView::Fatal(Some(pair)) = last.kind {
                    let group = chunk[last.line as int];
                    let key = (group.file, group.line as int, conflict_key(pair.0, pair.1));
                    if before.seen.contains(key) {
                        assert(before.seen.len() > 0);
                    }
                }
            }
        }
    }
}

/// What a check handles at a time: a chunk, the labels of its blocks, and the
/// findings in its document.
pub struct Round {
    pub chunk: Seq<GroupView>,
    pub labels: Seq<Seq<char>>,
    pub findings: Seq<FindingView>,
}

/// What a check has counted after some rounds.
pub open spec fn checked(tally: TallyView, palette: PaletteView, rounds: Seq<Round>) -> TallyView
    decreases rounds.len(),
{
    if rounds.len() == 0 {
        tally
    } else {
        let before = checked(tally, palette, rounds.drop_last());
        let round = rounds.last();
        tally_of(
            reported_all(
                chunk_report(before),
                round.chunk,
                round.labels,
                palette,
                round.findings,
            ),
        )
    }
}

/// Counts never fall.
proof fn lemma_counts_grow(
    report: ReportView,
    chunk: Seq<GroupView>,
    labels: Seq<Seq<char>>,
    palette: PaletteView,
    findings: Seq<FindingView>,
)
    requires
        report.fixable <= usize::MAX,
        report.conflicts <= usize::MAX,
    ensures
        ({
            let end = reported_all(report, chunk, labels, palette, findings);
            &&& report.fixable <= end.fixable <= usize::MAX
            &&& report.conflicts <= end.conflicts <= usize::MAX
        }),
    decreases findings.len(),
{
    if findings.len() > 0 {
        lemma_counts_grow(report, chunk, labels, palette, findings.drop_last());
    }
}

/// A check finds no issue if and only if no finding for a block in any of its
/// chunks is a suggestion or fails the check.
pub proof fn law_clean_check(palette: PaletteView, rounds: Seq<Round>)
    ensures
        ({
            let end = checked(
                TallyView { last_file: None, fixable: 0, conflicts: 0 },
                palette,
                rounds,
            );
            &&& end.fixable <= usize::MAX
            &&& end.conflicts <= usize::MAX
            &&& (end.fixable == 0 && end.conflicts == 0) <==> (forall|r: int, i: int|
                0 <= r < rounds.len() && 0 <= i < rounds[r].findings.len() ==> !counts(
                    #[trigger] rounds[r].findings[i],
                    rounds[r].chunk,
                ))
        }),
    decreases rounds.len(),
{
    if rounds.len() > 0 {
        let fresh = TallyView { last_file: None, fixable: 0, conflicts: 0 };
        let rest = rounds.drop_last();
        let round = rounds.last();
        let n = rounds.len() - 1;
        let before = checked(fresh, palette, rest);
        law_clean_check(palette, rest);
        lemma_counts_grow(
            chunk_report(before),
            round.chunk,
            round.labels,
            palette,
            round.findings,
        );
        if before.fixable == 0 && before.conflicts == 0 {
            law_clean_chunk(
                chunk_report(before),
                round.chunk,
                round.labels,
                palette,
                round.findings,
            );
            if forall|i: int|
                0 <= i < round.findings.len() ==> !counts(
                    #[trigger] round.findings[i],
                    round.chunk,
                ) {
                assert forall|r: int, i: int|
                    0 <= r < rounds.len() && 0 <= i < rounds[r].findings.len() implies !counts(
                    #[trigger] rounds[r].findings[i],
                    rounds[r].chunk,
                ) by {
                    if r < n {
                        assert(rest[r] == rounds[r]);
                        assert(!counts(rest[r].findings[i], rest[r].chunk));
                    }
                }
            } else {
                let i = choose|i: int|
                    0 <= i < round.findings.len() && counts(
                        #[trigger] round.findings[i],
                        round.chunk,
                    );
                assert(counts(rounds[n].findings[i], rounds[n].chunk));
            }
        } else {
            let (r, i) = choose|r: int, i: int|
                0 <= r < rest.len() && 0 <= i < rest[r].findings.len() && counts(
                    #[trigger] rest[r].findings[i],
                    rest[r].chunk,
                );
            assert(counts(rounds[r].findings[i], rounds[r].chunk));
        }
    }
}

/// Within a chunk each conflict is counted once: the conflicts that were seen
/// are all different, and the count has grown by their number and by that of
/// the other findings that fail the check.
pub proof fn law_conflict_counted_once(
    report: ReportView,
    chunk: Seq<GroupView>,
    labels: Seq<Seq<char>>,
    palette: PaletteView,
    findings: Seq<FindingView>,
)
    requires
        report.seen.len() == 0,
        report.conflicts <= usize::MAX,
    ensures
        ({
            let end = reported_all(report, chunk, labels, palette, findings);
            end.seen.no_duplicates() && end.conflicts == capped(
                report.conflicts + end.seen.len() + unnamed(findings, chunk),
            )
        }),
    decreases findings.len(),
{
    if findings.len() > 0 {
        let rest = findings.drop_last();
        law_conflict_counted_once(report, chunk, labels, palette, rest);
        let before = reported_all(report, chunk, labels, palette, rest);
        let end = reported_all(report, chunk, labels, palette, findings);
        if end.seen != before.seen {
            let key = end.seen.last();
            assert(end.seen == before.seen.push(key));
            assert(!before.seen.contains(key));
            assert forall|i: int, j: int|
                0 <= i < end.seen.len() && 0 <= j < end.seen.len() && i != j implies end.seen[i]
                != end.seen[j] by {
                if i < before.seen.len() && j < before.seen.len() {
                    assert(before.seen[i] != before.seen[j]);
                } else if i < before.seen.len() {
                    assert(before.seen.contains(before.seen[i]));
                } else {
                    assert(before.seen.contains(before.seen[j]));
                }
            }
        }
    }
}

/// The number of findings that fail a check.
pub open spec fn issues(tally: TallyView) -> nat {
    capped(tally.fixable + tally.conflicts)
}

/// What a check says at its end.
pub open spec fn check_summary(palette: PaletteView, fixable: nat, conflicts: nat) -> Seq<char> {
    if fixable == 0 && conflicts == 0 {
        "\n"@ + palette.bold + "✓ clean"@ + palette.reset + "\n"@
    } else {
        "\n"@ + palette.bold + decimal(capped(fixable + conflicts)) + " issues"@ + palette.reset
            + "  "@ + palette.warn + decimal(fixable) + " fixable"@ + palette.reset + "  "@
            + palette.error + decimal(conflicts) + " conflicts"@ + palette.reset + "\n"@
    }
}

/// A check of a corpus. Hand in the sources, the diagnostics of the documents
/// that it asks for, and the end of the sources; each call says what comes
/// next.
pub struct CheckRun {
    matcher: GroupMatcher,
    root: String,
    palette: Palette,
    sweep: Sweep,
    tally: Tally,
}

pub struct CheckView {
    pub opener: Seq<char>,
    pub item: Seq<char>,
    pub root: Seq<char>,
    pub palette: PaletteView,
    pub sweep: SweepView,
    pub tally: TallyView,
}

impl View for CheckRun {
    type V = CheckView;

    closed spec fn view(&self) -> CheckView {
        CheckView {
            opener: self.matcher.opener_pattern(),
            item: self.matcher.item_pattern(),
            root: self.root@,
            palette: self.palette@,
            sweep: self.sweep@,
            tally: self.tally@,
        }
    }
}

impl CheckRun {
    pub fn new(matcher: GroupMatcher, root: String, palette: Palette) -> (run: CheckRun)
        ensures
            run@ == (CheckView {
                opener: matcher.opener_pattern(),
                item: matcher.item_pattern(),
                root: root@,
                palette: palette@,
                sweep: fresh_sweep(),
                tally: TallyView { last_file: None, fixable: 0, conflicts: 0 },
            }),
    {
        CheckRun { matcher, root, palette, sweep: Sweep::new(), tally: Tally::new() }
    }

    /// Hand in the blocks of a source.
    pub fn on_blocks(&mut self, blocks: Vec<ClassGroup>) -> (step: Step)
        ensures
            final(self)@ == (CheckView {
                sweep: sweep_next(sweep_with(old(self)@.sweep, group_views(blocks@))),
                ..old(self)@
            }),
            step@ == sweep_step(sweep_with(old(self)@.sweep, group_views(blocks@))),
    {
        self.sweep.add_source(blocks);
        self.sweep.next_step()
    }

    /// Hand in a source.
    pub fn on_source(&mut self, file: &str, text: &str) -> (step: Step)
        ensures
            ({
                let blocks = source_blocks(old(self)@.opener, old(self)@.item, file@, text@);
                &&& final(self)@ == (CheckView {
                    sweep: sweep_next(sweep_with(old(self)@.sweep, blocks)),
                    ..old(self)@
                })
                &&& step@ == sweep_step(sweep_with(old(self)@.sweep, blocks))
            }),
    {
        let blocks = self.matcher.extract(file, text);
        self.on_blocks(blocks)
    }

    /// Hand in the end of the sources.
    pub fn on_sources_end(&mut self) -> (step: Step)
        ensures
            final(self)@ == (CheckView {
                sweep: sweep_next(sweep_ended(old(self)@.sweep)),
                ..old(self)@
            }),
            step@ == sweep_step(sweep_ended(old(self)@.sweep)),
    {
        self.sweep.end_sources();
        self.sweep.next_step()
    }

    /// Hand in what the diagnostics of the document say: gives the text to
    /// print. The labels are what the platform calls the paths of the blocks
    /// relative to the root.
    pub fn on_diagnostics(&mut self, diagnostics: &Vec<Diagnostic>) -> (answer: (String, Step))
        ensures
            exists|labels: Seq<Seq<char>>| #[trigger]
                labels_fit(labels, old(self)@.sweep.chunk, old(self)@.root) && {
                    let report = reported_all(
                        chunk_report(old(self)@.tally),
                        old(self)@.sweep.chunk,
                        labels,
                        old(self)@.palette,
                        classified_all(by_position(diagnostic_views(diagnostics@))),
                    );
                    &&& answer.0@ == report.out
                    &&& final(self)@ == (CheckView {
                        sweep: sweep_next(old(self)@.sweep),
                        tally: tally_of(report),
                        ..old(self)@
                    })
                },
            answer.1@ == sweep_step(old(self)@.sweep),
    {
        let findings = classify_by_position(diagnostics);
        let labels = chunk_labels(self.sweep.chunk(), self.root.as_str());
        let out = self.tally.report_check_chunk(
            self.sweep.chunk(),
            &labels,
            &self.palette,
            &findings,
        );
        let step = self.sweep.next_step();
        assert(labels_fit(strings(labels@), old(self)@.sweep.chunk, old(self)@.root));
        (out, step)
    }

    /// The end of a check: the text to print and the number of issues. Nothing
    /// is clean where no block was found.
    pub fn finish(self) -> (end: Result<(String, usize), NothingMatched>)
        ensures
            end is Err <==> self@.sweep.total == 0,
            end matches Ok(summary) ==> summary.0@ == check_summary(
                self@.palette,
                self@.tally.fixable,
                self@.tally.conflicts,
            ) && summary.1 == issues(self@.tally),
    {
        let total = self.sweep.total();
        if let Err(nothing) = ensure_blocks_matched(total) {
            return Err(nothing);
        }
        let fixable = self.tally.fixable;
        let conflicts = self.tally.conflicts;
        let issues = fixable.saturating_add(conflicts);
        let mut text = "\n".to_string();
        text.append(self.palette.bold);
        if issues == 0 {
            text.append("✓ clean");
            text.append(self.palette.reset);
        } else {
            text.append(decimal_text(issues as u64).as_str());
            text.append(" issues");
            text.append(self.palette.reset);
            text.append("  ");
            text.append(self.palette.warn);
            text.append(decimal_text(fixable as u64).as_str());
            text.append(" fixable");
            text.append(self.palette.reset);
            text.append("  ");
            text.append(self.palette.error);
            text.append(decimal_text(conflicts as u64).as_str());
            text.append(" conflicts");
            text.append(self.palette.reset);
        }
        text.append("\n");
        Ok((text, issues))
    }
}

} // verus!
