//! What the diagnostics of a chunk's document say of its blocks.
use crate::order::{arranged, ascending, ascending_order, key_values};
use crate::patterns::{
    canonical_replacement, conflict_in, conflict_pair, pair_view, replacement_part,
};
use crate::protocol::{
    canonical, diagnostic_views, fatal, is_canonical, is_fatal, Diagnostic, DiagnosticView,
};
use vstd::prelude::*;
use vstd::string::*;

verus! {

/// What kind of diagnostic a finding is.
#[derive(Debug)]
pub enum Kind {
    /// A class can be written shorter, perhaps as the given text.
    Canonical(Option<String>),
    /// Something that fails a check; a conflict names two classes.
    Fatal(Option<(String, String)>),
    /// Anything less.
    Minor,
}

pub enum KindView {
    Canonical(Option<Seq<char>>),
    Fatal(Option<(Seq<char>, Seq<char>)>),
    Minor,
}

impl View for Kind {
    type V = KindView;

    open spec fn view(&self) -> KindView {
        match self {
            Kind::Canonical(replacement) => KindView::Canonical(
                match replacement {
                    Some(text) => Some(text@),
                    None => None,
                },
            ),
            Kind::Fatal(pair) => KindView::Fatal(pair_view(*pair)),
            Kind::Minor => KindView::Minor,
        }
    }
}

/// A diagnostic of a chunk's document: the line names a block, the columns a
/// range of its line.
#[derive(Debug)]
pub struct Finding {
    pub line: u32,
    pub start: u32,
    pub end: u32,
    pub message: String,
    pub kind: Kind,
}

pub struct FindingView {
    pub line: u32,
    pub start: u32,
    pub end: u32,
    pub message: Seq<char>,
    pub kind: KindView,
}

impl View for Finding {
    type V = FindingView;

    open spec fn view(&self) -> FindingView {
        FindingView {
            line: self.line,
            start: self.start,
            end: self.end,
            message: self.message@,
            kind: self.kind@,
        }
    }
}

pub open spec fn finding_views(list: Seq<Finding>) -> Seq<FindingView> {
    list.map_values(|f: Finding| f@)
}

/// What a diagnostic says.
pub open spec fn classified(diagnostic: DiagnosticView) -> FindingView {
    FindingView {
        line: diagnostic.range.start.line,
        start: diagnostic.range.start.character,
        end: diagnostic.range.end.character,
        message: diagnostic.message,
        kind: if canonical(diagnostic) {
            KindView::Canonical(replacement_part(diagnostic.message))
        } else if fatal(diagnostic) {
            KindView::Fatal(conflict_in(diagnostic.message))
        } else {
            KindView::Minor
        },
    }
}

/// Read a diagnostic.
pub fn classify(diagnostic: &Diagnostic) -> (finding: Finding)
    ensures
        finding@ == classified(diagnostic@),
{
    let kind = if is_canonical(diagnostic) {
        Kind::Canonical(canonical_replacement(diagnostic.message.as_str()))
    } else if is_fatal(diagnostic) {
        Kind::Fatal(conflict_pair(diagnostic.message.as_str()))
    } else {
        Kind::Minor
    };
    Finding {
        line: diagnostic.range.start.line,
        start: diagnostic.range.start.character,
        end: diagnostic.range.end.character,
        message: diagnostic.message.clone(),
        kind,
    }
}

/// What some diagnostics say, in their order.
pub open spec fn classified_all(diagnostics: Seq<DiagnosticView>) -> Seq<FindingView> {
    diagnostics.map_values(|d: DiagnosticView| classified(d))
}

/// Read some diagnostics.
pub fn classify_all(diagnostics: &Vec<Diagnostic>) -> (findings: Vec<Finding>)
    ensures
        finding_views(findings@) == classified_all(diagnostic_views(diagnostics@)),
{
    let mut findings: Vec<Finding> = Vec::new();
    let mut i: usize = 0;
    while i < diagnostics.len()
        invariant
            i <= diagnostics@.len(),
            findings@.len() == i,
            forall|j: int| 0 <= j < i ==> (#[trigger] findings@[j])@ == classified(diagnostics@[j]@),
        decreases diagnostics@.len() - i,
    {
        findings.push(classify(&diagnostics[i]));
        i += 1;
    }
    assert(finding_views(findings@) =~= classified_all(diagnostic_views(diagnostics@)));
    findings
}

/// The diagnostics by their start positions, those at one position in the order
/// in which the server gave them.
pub open spec fn by_position(diagnostics: Seq<DiagnosticView>) -> Seq<DiagnosticView> {
    arranged(
        diagnostics,
        ascending(diagnostics.map_values(|d: DiagnosticView| d.range.start.rank())),
    )
}

/// Read some diagnostics in the order of their start positions.
pub fn classify_by_position(diagnostics: &Vec<Diagnostic>) -> (findings: Vec<Finding>)
    ensures
        finding_views(findings@) == classified_all(by_position(diagnostic_views(diagnostics@))),
{
    let mut keys: Vec<u64> = Vec::new();
    let mut i: usize = 0;
    while i < diagnostics.len()
        invariant
            i <= diagnostics@.len(),
            keys@.len() == i,
            forall|j: int|
                0 <= j < i ==> #[trigger] keys@[j] == diagnostics@[j].range.start.rank(),
        decreases diagnostics@.len() - i,
    {
        keys.push(diagnostics[i].range.start.order_key());
        i += 1;
    }
    let ghost views = diagnostic_views(diagnostics@);
    assert(key_values(keys@) =~= views.map_values(|d: DiagnosticView| d.range.start.rank()));
    let order = ascending_order(&keys);
    let mut findings: Vec<Finding> = Vec::new();
    let mut k: usize = 0;
    while k < order.len()
        invariant
            k <= order@.len(),
            forall|a: int| 0 <= a < order@.len() ==> (#[trigger] order@[a]) < diagnostics@.len(),
            findings@.len() == k,
            forall|j: int|
                0 <= j < k ==> (#[trigger] findings@[j])@ == classified(
                    diagnostics@[order@[j] as int]@,
                ),
        decreases order@.len() - k,
    {
        findings.push(classify(&diagnostics[order[k]]));
        k += 1;
    }
    assert(finding_views(findings@) =~= classified_all(by_position(views)));
    findings
}

} // verus!
