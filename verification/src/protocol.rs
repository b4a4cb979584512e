//! The parts of the language server protocol that the linter reads: positions,
//! diagnostics and text edits.
use crate::json::{Json, JsonView};
use crate::text::same_text;
use vstd::prelude::*;
use vstd::string::*;

verus! {

/// A place in a document: a line and a column in it, both counted from zero.
#[derive(Debug, Clone, Copy, PartialEq, Eq, Structural)]
pub struct Position {
    pub line: u32,
    pub character: u32,
}

impl Position {
    pub fn new(line: u32, character: u32) -> (position: Position)
        ensures
            position == (Position { line, character }),
    {
        Position { line, character }
    }

    /// A number by which positions are ordered, first by line, then by column.
    pub open spec fn rank(self) -> int {
        self.line * 0x1_0000_0000 + self.character
    }

    pub fn order_key(&self) -> (key: u64)
        ensures
            key == self.rank(),
    {
        self.line as u64 * 0x1_0000_0000 + self.character as u64
    }
}

/// The rank orders positions first by line, then by column, and no two
/// positions share one.
pub proof fn law_rank_orders_positions(a: Position, b: Position)
    ensures
        a.rank() < b.rank() <==> a.line < b.line || (a.line == b.line && a.character < b.character),
        a.rank() == b.rank() <==> a == b,
{
}

/// A range of a document, its end excluded.
#[derive(Debug, Clone, Copy, PartialEq, Eq, Structural)]
pub struct Range {
    pub start: Position,
    pub end: Position,
}

impl Range {
    pub fn new(start: Position, end: Position) -> (range: Range)
        ensures
            range == (Range { start, end }),
    {
        Range { start, end }
    }
}

/// How serious a diagnostic is: the lower the number, the more serious.
pub const ERROR: i32 = 1;

pub const WARNING: i32 = 2;

pub const INFORMATION: i32 = 3;

pub const HINT: i32 = 4;

/// The code of a diagnostic.
#[derive(Debug)]
pub enum Code {
    Number(i32),
    Name(String),
}

pub enum CodeView {
    Number(i32),
    Name(Seq<char>),
}

impl View for Code {
    type V = CodeView;

    open spec fn view(&self) -> CodeView {
        match self {
            Code::Number(number) => CodeView::Number(*number),
            Code::Name(name) => CodeView::Name(name@),
        }
    }
}

/// What the server says of a range of a document.
#[derive(Debug)]
pub struct Diagnostic {
    pub range: Range,
    pub severity: Option<i32>,
    pub code: Option<Code>,
    pub message: String,
    /// The diagnostic as the server wrote it, to be sent back when its fixes are
    /// asked for.
    pub sent: Json,
}

pub struct DiagnosticView {
    pub range: Range,
    pub severity: Option<i32>,
    pub code: Option<CodeView>,
    pub message: Seq<char>,
    pub sent: JsonView,
}

impl View for Diagnostic {
    type V = DiagnosticView;

    open spec fn view(&self) -> DiagnosticView {
        DiagnosticView {
            range: self.range,
            severity: self.severity,
            code: match self.code {
                Some(code) => Some(code@),
                None => None,
            },
            message: self.message@,
            sent: self.sent@,
        }
    }
}

pub open spec fn diagnostic_views(list: Seq<Diagnostic>) -> Seq<DiagnosticView> {
    list.map_values(|d: Diagnostic| d@)
}

/// A diagnostic fails a check at warning severity or above, and where the
/// server names no severity.
pub open spec fn fatal(diagnostic: DiagnosticView) -> bool {
    match diagnostic.severity {
        Some(severity) => severity <= WARNING,
        None => true,
    }
}

/// A diagnostic that suggests a shorter spelling of a class.
pub open spec fn canonical(diagnostic: DiagnosticView) -> bool {
    diagnostic.code == Some(CodeView::Name("suggestCanonicalClasses"@))
}

pub fn is_fatal(diagnostic: &Diagnostic) -> (yes: bool)
    ensures
        yes == fatal(diagnostic@),
{
    match diagnostic.severity {
        Some(severity) => severity <= WARNING,
        None => true,
    }
}

pub fn is_canonical(diagnostic: &Diagnostic) -> (yes: bool)
    ensures
        yes == canonical(diagnostic@),
{
    match &diagnostic.code {
        Some(Code::Name(name)) => same_text(name.as_str(), "suggestCanonicalClasses"),
        Some(Code::Number(_)) => false,
        None => false,
    }
}

/// A replacement of a range of a document.
#[derive(Debug)]
pub struct TextEdit {
    pub range: Range,
    pub new_text: String,
}

/// The diagnostics that the server published for a document.
#[derive(Debug)]
pub struct PublishedDiagnostics {
    pub uri: String,
    pub diagnostics: Vec<Diagnostic>,
}

pub struct PublishedView {
    pub uri: Seq<char>,
    pub diagnostics: Seq<DiagnosticView>,
}

impl View for PublishedDiagnostics {
    type V = PublishedView;

    open spec fn view(&self) -> PublishedView {
        PublishedView { uri: self.uri@, diagnostics: diagnostic_views(self.diagnostics@) }
    }
}

pub open spec fn published_views(list: Seq<PublishedDiagnostics>) -> Seq<PublishedView> {
    list.map_values(|p: PublishedDiagnostics| p@)
}

} // verus!
