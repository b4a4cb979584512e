//! The report on linted sources: which of their diagnostics fail a check, and
//! how they are printed.
use crate::protocol::{
    diagnostic_views, fatal, is_fatal, Code, CodeView, Diagnostic, DiagnosticView, ERROR, HINT,
    INFORMATION, WARNING,
};
use crate::session::{file_views, FileDiagnostics, FileView};
use crate::sweep::capped;
use crate::text::{decimal, decimal_text};
use vstd::prelude::*;
use vstd::string::*;

verus! {

/// The number of diagnostics that fail a check.
pub open spec fn fatal_in(diagnostics: Seq<DiagnosticView>) -> nat
    decreases diagnostics.len(),
{
    if diagnostics.len() == 0 {
        0
    } else {
        fatal_in(diagnostics.drop_last()) + if fatal(diagnostics.last()) {
            1nat
        } else {
            0nat
        }
    }
}

/// The number of diagnostics of some sources that fail a check.
pub open spec fn fatal_total(files: Seq<FileView>) -> nat
    decreases files.len(),
{
    if files.len() == 0 {
        0
    } else {
        fatal_total(files.drop_last()) + fatal_in(files.last().diagnostics)
    }
}

/// Nothing fails a check if and only if no diagnostic is a warning or worse.
pub proof fn law_fatal_total(files: Seq<FileView>)
    ensures
        fatal_total(files) == 0 <==> (forall|i: int, j: int|
            0 <= i < files.len() && 0 <= j < files[i].diagnostics.len() ==> !fatal(
                #[trigger] files[i].diagnostics[j],
            )),
    decreases files.len(),
{
    if files.len() > 0 {
        let rest = files.drop_last();
        let last = files.len() - 1;
        law_fatal_total(rest);
        lemma_fatal_in(files.last().diagnostics);
        if fatal_total(files) == 0 {
            assert forall|i: int, j: int|
                0 <= i < files.len() && 0 <= j < files[i].diagnostics.len() implies !fatal(
                #[trigger] files[i].diagnostics[j],
            ) by {
                if i < last {
                    assert(rest[i] == files[i]);
                    assert(!fatal(rest[i].diagnostics[j]));
                }
            }
        } else if fatal_total(rest) != 0 {
            let (i, j) = choose|i: int, j: int|
                0 <= i < rest.len() && 0 <= j < rest[i].diagnostics.len() && fatal(
                    #[trigger] rest[i].diagnostics[j],
                );
            assert(fatal(files[i].diagnostics[j]));
        } else {
            let j = choose|j: int|
                0 <= j < files.last().diagnostics.len() && fatal(
                    #[trigger] files.last().diagnostics[j],
                );
            assert(fatal(files[last].diagnostics[j]));
        }
    }
}

/// The count for two lists of sources together is the sum of their counts.
pub proof fn law_fatal_total_adds_up(a: Seq<FileView>, b: Seq<FileView>)
    ensures
        fatal_total(a + b) == fatal_total(a) + fatal_total(b),
    decreases b.len(),
{
    if b.len() == 0 {
        assert(a + b =~= a);
    } else {
        law_fatal_total_adds_up(a, b.drop_last());
        assert((a + b).drop_last() =~= a + b.drop_last());
        assert((a + b).last() == b.last());
    }
}

/// Errors, warnings and diagnostics without a severity count; information and
/// hints never do.
pub proof fn law_what_is_fatal(diagnostic: DiagnosticView)
    ensures
        diagnostic.severity == None::<i32> || diagnostic.severity == Some(ERROR)
            || diagnostic.severity == Some(WARNING) ==> fatal(diagnostic),
        diagnostic.severity == Some(INFORMATION) || diagnostic.severity == Some(HINT) ==> !fatal(
            diagnostic,
        ),
{
}

proof fn lemma_fatal_in(diagnostics: Seq<DiagnosticView>)
    ensures
        fatal_in(diagnostics) == 0 <==> (forall|j: int|
            0 <= j < diagnostics.len() ==> !fatal(#[trigger] diagnostics[j])),
    decreases diagnostics.len(),
{
    if diagnostics.len() > 0 {
        let rest = diagnostics.drop_last();
        lemma_fatal_in(rest);
        let last = diagnostics.len() - 1;
        if fatal_in(diagnostics) == 0 {
            assert forall|j: int| 0 <= j < diagnostics.len() implies !fatal(
                #[trigger] diagnostics[j],
            ) by {
                if j < last {
                    assert(rest[j] == diagnostics[j]);
                }
            }
        } else if fatal_in(rest) != 0 {
            let j = choose|j: int| 0 <= j < rest.len() && fatal(#[trigger] rest[j]);
            assert(fatal(diagnostics[j]));
        } else {
            assert(fatal(diagnostics[last]));
        }
    }
}

fn count_fatal(diagnostics: &Vec<Diagnostic>, count: usize) -> (total: usize)
    ensures
        total == capped(count as nat + fatal_in(diagnostic_views(diagnostics@))),
{
    let mut total: usize = count;
    let mut i: usize = 0;
    let ghost all = diagnostic_views(diagnostics@);
    while i < diagnostics.len()
        invariant
            i <= diagnostics@.len(),
            all == diagnostic_views(diagnostics@),
            total == capped(count as nat + fatal_in(all.take(i as int))),
        decreases diagnostics@.len() - i,
    {
        proof {
            assert(all.take(i + 1).drop_last() =~= all.take(i as int));
            assert(all.take(i + 1).last() == diagnostics@[i as int]@);
        }
        if is_fatal(&diagnostics[i]) {
            total = total.saturating_add(1);
        }
        i += 1;
    }
    assert(all.take(i as int) =~= all);
    total
}

/// The number of diagnostics that fail a check.
pub fn fatal_count(results: &[FileDiagnostics]) -> (count: usize)
    ensures
        count == capped(fatal_total(file_views(results@))),
{
    let mut count: usize = 0;
    let mut i: usize = 0;
    let ghost all = file_views(results@);
    while i < results.len()
        invariant
            i <= results@.len(),
            all == file_views(results@),
            count == capped(fatal_total(all.take(i as int))),
        decreases results@.len() - i,
    {
        proof {
            assert(all.take(i + 1).drop_last() =~= all.take(i as int));
            assert(all.take(i + 1).last() == results@[i as int]@);
        }
        count = count_fatal(&results[i].diagnostics, count);
        i += 1;
    }
    assert(all.take(i as int) =~= all);
    count
}

/// The rule that a diagnostic comes from, as it is printed before the message;
/// nothing where the server names none.
pub open spec fn rule_text(code: Option<CodeView>) -> Seq<char> {
    match code {
        Some(CodeView::Name(name)) => name + "  "@,
        Some(CodeView::Number(number)) => if number < 0 {
            "-"@ + decimal((0 - number) as nat) + "  "@
        } else {
            decimal(number as nat) + "  "@
        },
        None => Seq::empty(),
    }
}

/// A diagnostic of a source as it is printed: its place, its rule and its
/// message. Lines and columns are counted from one.
pub open spec fn diagnostic_line(path: Seq<char>, diagnostic: DiagnosticView) -> Seq<char> {
    path + ":"@ + decimal((diagnostic.range.start.line + 1) as nat) + ":"@ + decimal(
        (diagnostic.range.start.character + 1) as nat,
    ) + "  "@ + rule_text(diagnostic.code) + diagnostic.message + "\n"@
}

fn print_rule(code: &Option<Code>) -> (text: String)
    ensures
        text@ == rule_text(
            match code {
                Some(code) => Some(code@),
                None => None,
            },
        ),
{
    match code {
        Some(Code::Name(name)) => {
            let mut text = name.clone();
            text.append("  ");
            text
        },
        Some(Code::Number(number)) => {
            let value: i64 = *number as i64;
            if value < 0 {
                let mut text = "-".to_string();
                text.append(decimal_text((-value) as u64).as_str());
                text.append("  ");
                text
            } else {
                let mut text = decimal_text(value as u64);
                text.append("  ");
                text
            }
        },
        None => {
            let none = String::new();
            assert(none@ =~= Seq::empty());
            none
        },
    }
}

pub open spec fn diagnostic_lines(path: Seq<char>, diagnostics: Seq<DiagnosticView>) -> Seq<char>
    decreases diagnostics.len(),
{
    if diagnostics.len() == 0 {
        Seq::empty()
    } else {
        diagnostic_lines(path, diagnostics.drop_last()) + diagnostic_line(path, diagnostics.last())
    }
}

/// The report: a line for each diagnostic of each source.
pub open spec fn rendered(files: Seq<FileView>) -> Seq<char>
    decreases files.len(),
{
    if files.len() == 0 {
        Seq::empty()
    } else {
        rendered(files.drop_last()) + diagnostic_lines(
            files.last().path,
            files.last().diagnostics,
        )
    }
}

/// The places of a source's diagnostics have successors among the numbers that
/// places are counted in.
pub open spec fn places_fit(diagnostics: Seq<DiagnosticView>) -> bool {
    forall|j: int|
        0 <= j < diagnostics.len() ==> (#[trigger] diagnostics[j]).range.start.line < u32::MAX
            && diagnostics[j].range.start.character < u32::MAX
}

/// Every place in a report can be counted from one.
pub open spec fn renderable(files: Seq<FileView>) -> bool {
    forall|i: int| 0 <= i < files.len() ==> places_fit((#[trigger] files[i]).diagnostics)
}

/// Whether every place in a report can be counted from one.
pub fn can_render(results: &[FileDiagnostics]) -> (yes: bool)
    ensures
        yes == renderable(file_views(results@)),
{
    let ghost all = file_views(results@);
    let mut i: usize = 0;
    while i < results.len()
        invariant
            i <= results@.len(),
            all == file_views(results@),
            forall|a: int| 0 <= a < i ==> places_fit((#[trigger] all[a]).diagnostics),
        decreases results@.len() - i,
    {
        let diagnostics = &results[i].diagnostics;
        let ghost views = diagnostic_views(diagnostics@);
        assert(all[i as int].diagnostics == views);
        let mut k: usize = 0;
        while k < diagnostics.len()
            invariant
                i < results@.len(),
                k <= diagnostics@.len(),
                all == file_views(results@),
                views == diagnostic_views(diagnostics@),
                all[i as int].diagnostics == views,
                forall|b: int|
                    0 <= b < k ==> (#[trigger] views[b]).range.start.line < u32::MAX
                        && views[b].range.start.character < u32::MAX,
            decreases diagnostics@.len() - k,
        {
            let start = diagnostics[k].range.start;
            assert(views[k as int].range.start == start);
            if start.line == u32::MAX || start.character == u32::MAX {
                return false;
            }
            k += 1;
        }
        i += 1;
    }
    true
}

/// Render the report.
pub fn render(results: &[FileDiagnostics]) -> (text: String)
    requires
        renderable(file_views(results@)),
    ensures
        text@ == rendered(file_views(results@)),
{
    let mut text = String::new();
    let mut i: usize = 0;
    let ghost all = file_views(results@);
    while i < results.len()
        invariant
            i <= results@.len(),
            all == file_views(results@),
            renderable(all),
            text@ == rendered(all.take(i as int)),
        decreases results@.len() - i,
    {
        let file = &results[i];
        let ghost lines = diagnostic_views(file.diagnostics@);
        let ghost before = text@;
        proof {
            assert(all.take(i + 1).drop_last() =~= all.take(i as int));
            assert(all.take(i + 1).last() == file@);
            assert(places_fit(all[i as int].diagnostics));
            assert(before + diagnostic_lines(file.path@, lines.take(0)) =~= before);
        }
        let mut k: usize = 0;
        while k < file.diagnostics.len()
            invariant
                k <= file.diagnostics@.len(),
                lines == diagnostic_views(file.diagnostics@),
                places_fit(lines),
                text@ == before + diagnostic_lines(file.path@, lines.take(k as int)),
            decreases file.diagnostics@.len() - k,
        {
            let diagnostic = &file.diagnostics[k];
            let ghost so_far = diagnostic_lines(file.path@, lines.take(k as int));
            proof {
                assert(lines.take(k + 1).drop_last() =~= lines.take(k as int));
                assert(lines.take(k + 1).last() == diagnostic@);
                assert(lines[k as int] == diagnostic@);
            }
            let line: u32 = diagnostic.range.start.line + 1;
            let column: u32 = diagnostic.range.start.character + 1;
            text.append(file.path.as_str());
            text.append(":");
            text.append(decimal_text(line as u64).as_str());
            text.append(":");
            text.append(decimal_text(column as u64).as_str());
            text.append("  ");
            text.append(print_rule(&diagnostic.code).as_str());
            text.append(diagnostic.message.as_str());
            text.append("\n");
            assert(text@ =~= before + (so_far + diagnostic_line(file.path@, diagnostic@)));
            k += 1;
        }
        assert(lines.take(k as int) =~= lines);
        i += 1;
    }
    assert(all.take(i as int) =~= all);
    text
}

} // verus!
