//! Linting source by source: each is opened in the server under its own name,
//! and its diagnostics are collected or fixed.
use crate::cli::LintConfig;
use crate::edits::{edit_views, edited, try_text_edits, TextEditView};
use crate::fix::{Rewrite, RewriteView};
use crate::languages::Languages;
use crate::lsp::client::{
    after_collecting, code_action_json, collected, diagnostics_request, document_json,
    notification_of, open_json, request_of, requested, Client,
};
use crate::lsp::transport::{Message, MessageView, RequestId};
use crate::paths::{extension_of, file_uri, may_extend, plainly_relative, uri_for};
use crate::protocol::{diagnostic_views, Diagnostic, DiagnosticView, TextEdit};
use crate::text::{same_text, text_of};
use vstd::prelude::*;
use vstd::string::*;
use vstd::utf8::*;

verus! {

/// The diagnostics of a source.
#[derive(Debug)]
pub struct FileDiagnostics {
    pub path: String,
    pub diagnostics: Vec<Diagnostic>,
}

pub struct FileView {
    pub path: Seq<char>,
    pub diagnostics: Seq<DiagnosticView>,
}

impl View for FileDiagnostics {
    type V = FileView;

    open spec fn view(&self) -> FileView {
        FileView { path: self.path@, diagnostics: diagnostic_views(self.diagnostics@) }
    }
}

pub open spec fn file_views(list: Seq<FileDiagnostics>) -> Seq<FileView> {
    list.map_values(|f: FileDiagnostics| f@)
}

/// The language in which a source is opened: its extension, or `rust` for an
/// `rs` file where the server is told how to take that.
pub open spec fn language_id(
    extension: Option<Seq<char>>,
    languages: Map<Seq<char>, Seq<char>>,
) -> Seq<char> {
    match extension {
        Some(text) => if text == "rs"@ && languages.dom().contains("rust"@) {
            "rust"@
        } else {
            text
        },
        None => Seq::empty(),
    }
}

/// The language in which a source with a given extension is opened.
pub fn language_of_extension(extension: Option<String>, languages: &Languages) -> (id: String)
    ensures
        id@ == language_id(text_of(extension), languages@),
{
    match extension {
        Some(text) => {
            if same_text(text.as_str(), "rs") && languages.contains_key("rust") {
                "rust".to_string()
            } else {
                text
            }
        },
        None => {
            let none = String::new();
            assert(none@ =~= Seq::empty());
            none
        },
    }
}

/// A language in which a source may be opened.
pub open spec fn language_for(
    id: Seq<char>,
    path: Seq<char>,
    languages: Map<Seq<char>, Seq<char>>,
) -> bool {
    exists|extension: Option<Seq<char>>| #[trigger]
        may_extend(extension, path) && id == language_id(extension, languages)
}

/// The language in which a source is opened. What its extension is, is stated
/// where the path plainly ends in a file name; other paths are read as the
/// platform has it.
pub fn language_id_for(config: &LintConfig, path: &str) -> (id: String)
    ensures
        language_for(id@, path@, config.include_languages@),
{
    let extension = extension_of(path);
    assert(may_extend(text_of(extension), path@));
    language_of_extension(extension, &config.include_languages)
}

/// Why a source could not be opened.
#[derive(Debug)]
pub enum SourceError {
    /// Its path is not absolute.
    RelativePath(String),
}

impl SourceError {
    pub fn message(&self) -> (text: String)
        ensures
            text@ == match self {
                SourceError::RelativePath(path) => "non-absolute path "@ + path@,
            },
    {
        match self {
            SourceError::RelativePath(path) => {
                let mut text = "non-absolute path ".to_string();
                text.append(path.as_str());
                text
            },
        }
    }
}

/// A source is opened under a URI and in a language that fit its path.
pub open spec fn source_opened(
    uri: Seq<char>,
    message: MessageView,
    path: Seq<char>,
    text: Seq<char>,
    languages: Map<Seq<char>, Seq<char>>,
) -> bool {
    &&& uri_for(uri, path)
    &&& exists|language: Seq<char>| #[trigger]
        language_for(language, path, languages) && message == notification_of(
            "textDocument/didOpen"@,
            open_json(uri, language, text),
        )
}

/// The edits of one document.
#[derive(Debug)]
pub struct FileEdits {
    pub uri: String,
    pub edits: Vec<TextEdit>,
}

pub struct FileEditsView {
    pub uri: Seq<char>,
    pub edits: Seq<TextEditView>,
}

impl View for FileEdits {
    type V = FileEditsView;

    open spec fn view(&self) -> FileEditsView {
        FileEditsView { uri: self.uri@, edits: edit_views(self.edits@) }
    }
}

pub open spec fn file_edits_views(list: Seq<FileEdits>) -> Seq<FileEditsView> {
    list.map_values(|f: FileEdits| f@)
}

/// What the server offers for a diagnostic.
#[derive(Debug)]
pub enum Action {
    /// A command, which the server would run itself.
    Command,
    /// A code action, and the edits that it makes in each document, if any.
    CodeAction(Option<Vec<FileEdits>>),
}

pub enum ActionView {
    Command,
    CodeAction(Option<Seq<FileEditsView>>),
}

impl View for Action {
    type V = ActionView;

    open spec fn view(&self) -> ActionView {
        match self {
            Action::Command => ActionView::Command,
            Action::CodeAction(changes) => ActionView::CodeAction(
                match changes {
                    Some(list) => Some(file_edits_views(list@)),
                    None => None,
                },
            ),
        }
    }
}

pub open spec fn action_views(list: Seq<Action>) -> Seq<ActionView> {
    list.map_values(|a: Action| a@)
}

/// The edits of a document among some changes.
pub open spec fn edits_in(changes: Seq<FileEditsView>, uri: Seq<char>) -> Seq<TextEditView>
    decreases changes.len(),
{
    if changes.len() == 0 {
        Seq::empty()
    } else if changes[0].uri == uri {
        changes[0].edits
    } else {
        edits_in(changes.drop_first(), uri)
    }
}

/// The edits that an action makes in a document.
pub open spec fn action_edits(action: ActionView, uri: Seq<char>) -> Seq<TextEditView> {
    match action {
        ActionView::CodeAction(Some(changes)) => edits_in(changes, uri),
        _ => Seq::empty(),
    }
}

/// The edits that some actions make in a document, in the order of the actions.
pub open spec fn actions_edits(actions: Seq<ActionView>, uri: Seq<char>) -> Seq<TextEditView>
    decreases actions.len(),
{
    if actions.len() == 0 {
        Seq::empty()
    } else {
        actions_edits(actions.drop_last(), uri) + action_edits(actions.last(), uri)
    }
}

fn pick_edits(changes: Vec<FileEdits>, uri: &str) -> (edits: Vec<TextEdit>)
    ensures
        edit_views(edits@) == edits_in(file_edits_views(changes@), uri@),
{
    let mut edits: Vec<TextEdit> = Vec::new();
    let mut found = false;
    let ghost items = changes@;
    let ghost all = file_edits_views(items);
    assert(edit_views(edits@) =~= Seq::empty());
    assert(all.skip(0) =~= all);
    for file in it: changes.into_iter()
        invariant
            it.seq() == items,
            all == file_edits_views(items),
            found ==> edit_views(edits@) == edits_in(all, uri@),
            !found ==> edits_in(all, uri@) == edits_in(all.skip(it.index() as int), uri@),
            !found ==> edit_views(edits@) == Seq::<TextEditView>::empty(),
    {
        let ghost n = it.index() as int;
        proof {
            assert(all.skip(n)[0] == file@);
            assert(all.skip(n).drop_first() =~= all.skip(n + 1));
        }
        if !found && same_text(file.uri.as_str(), uri) {
            edits = file.edits;
            found = true;
        }
    }
    edits
}

/// Gather the edits that some actions make in a document, behind those that were
/// gathered before.
pub fn gather_edits(gathered: &mut Vec<TextEdit>, actions: Vec<Action>, uri: &str)
    ensures
        edit_views(final(gathered)@) == edit_views(old(gathered)@) + actions_edits(
            action_views(actions@),
            uri@,
        ),
{
    let ghost items = actions@;
    let ghost all = action_views(items);
    let ghost start = edit_views(gathered@);
    assert(start + Seq::<TextEditView>::empty() =~= start);
    for action in it: actions.into_iter()
        invariant
            it.seq() == items,
            all == action_views(items),
            edit_views(gathered@) == start + actions_edits(all.take(it.index() as int), uri@),
    {
        let ghost n = it.index() as int;
        let ghost before = gathered@;
        proof {
            assert(all.take(n + 1).drop_last() =~= all.take(n));
            assert(all.take(n + 1).last() == action@);
        }
        if let Action::CodeAction(Some(changes)) = action {
            let mut more = pick_edits(changes, uri);
            let ghost added = edit_views(more@);
            gathered.append(&mut more);
            assert(edit_views(gathered@) =~= edit_views(before) + added);
        }
        assert(edit_views(gathered@) =~= start + actions_edits(all.take(n + 1), uri@));
    }
    assert(all.take(all.len() as int) =~= all);
}

/// What some edits make of a source.
pub open spec fn edits_rewrite(bytes: Seq<u8>, edits: Seq<TextEditView>) -> RewriteView {
    if edits.len() == 0 {
        RewriteView::Keep
    } else {
        match edited(bytes, edits) {
            Some(after) => RewriteView::Write(after),
            None => RewriteView::Misfit,
        }
    }
}

/// Apply every edit of a source in one batch, all in the coordinates of the
/// source as it is; without edits the source is kept.
pub fn fix_source(text: &str, edits: &[TextEdit]) -> (rewrite: Rewrite)
    ensures
        rewrite@ == edits_rewrite(text.spec_bytes(), edit_views(edits@)),
{
    assert(edit_views(edits@).len() == edits@.len());
    if edits.is_empty() {
        Rewrite::Keep
    } else {
        match try_text_edits(text, edits) {
            Some(after) => Rewrite::Write(after),
            None => Rewrite::Misfit,
        }
    }
}

/// A source that is open in the server: its diagnostics, how many of them were
/// asked fixes for, and the edits that were offered.
pub struct Visit {
    path: String,
    text: String,
    uri: String,
    diagnostics: Vec<Diagnostic>,
    asked: usize,
    edits: Vec<TextEdit>,
}

pub struct VisitView {
    pub path: Seq<char>,
    pub text: Seq<char>,
    pub uri: Seq<char>,
    pub diagnostics: Seq<DiagnosticView>,
    pub asked: int,
    pub edits: Seq<TextEditView>,
}

impl View for Visit {
    type V = VisitView;

    closed spec fn view(&self) -> VisitView {
        VisitView {
            path: self.path@,
            text: self.text@,
            uri: self.uri@,
            diagnostics: diagnostic_views(self.diagnostics@),
            asked: self.asked as int,
            edits: edit_views(self.edits@),
        }
    }
}

/// The beginning of a visit.
pub open spec fn fresh_visit(path: Seq<char>, text: Seq<char>, uri: Seq<char>) -> VisitView {
    VisitView {
        path,
        text,
        uri,
        diagnostics: Seq::empty(),
        asked: 0,
        edits: Seq::empty(),
    }
}

/// The visit once fixes were offered for one more diagnostic.
pub open spec fn visit_with(visit: VisitView, actions: Seq<ActionView>) -> VisitView {
    VisitView { edits: visit.edits + actions_edits(actions, visit.uri), ..visit }
}

/// The visit once fixes were offered for some more diagnostics, one after the
/// other.
pub open spec fn visit_with_all(visit: VisitView, offers: Seq<Seq<ActionView>>) -> VisitView
    decreases offers.len(),
{
    if offers.len() == 0 {
        visit
    } else {
        visit_with(visit_with_all(visit, offers.drop_last()), offers.last())
    }
}

/// The edits of all offers, one after the other.
pub open spec fn all_edits(offers: Seq<Seq<ActionView>>, uri: Seq<char>) -> Seq<TextEditView>
    decreases offers.len(),
{
    if offers.len() == 0 {
        Seq::empty()
    } else {
        all_edits(offers.drop_last(), uri) + actions_edits(offers.last(), uri)
    }
}

/// A source is rewritten once, from the edits of everything that was offered for
/// it.
pub proof fn law_offers_are_applied_together(
    path: Seq<char>,
    text: Seq<char>,
    uri: Seq<char>,
    offers: Seq<Seq<ActionView>>,
)
    ensures
        visit_with_all(fresh_visit(path, text, uri), offers) == (VisitView {
            edits: all_edits(offers, uri),
            ..fresh_visit(path, text, uri)
        }),
    decreases offers.len(),
{
    if offers.len() > 0 {
        law_offers_are_applied_together(path, text, uri, offers.drop_last());
    }
}

impl Visit {
    /// Open a source in the server under a URI and in a language, and ask for its
    /// diagnostics: gives the notification and the request to be sent.
    pub fn begin_at<R, W>(
        client: &mut Client<R, W>,
        path: &str,
        text: &str,
        uri: String,
        language: &str,
    ) -> (begun: (Visit, Message, RequestId, Message))
        requires
            old(client)@.next_id < i32::MAX,
        ensures
            begun.0@ == fresh_visit(path@, text@, uri@),
            begun.1@ == notification_of(
                "textDocument/didOpen"@,
                open_json(uri@, language@, text@),
            ),
            (begun.2@, begun.3@) == diagnostics_request(old(client)@, uri@),
            final(client)@ == requested(old(client)@),
    {
        let message = client.open_document(uri.as_str(), language, text);
        let (id, request) = client.ask_diagnostics(uri.as_str());
        let visit = Visit {
            path: path.to_string(),
            text: text.to_string(),
            uri,
            diagnostics: Vec::new(),
            asked: 0,
            edits: Vec::new(),
        };
        assert(visit@.diagnostics =~= Seq::empty());
        assert(visit@.edits =~= Seq::empty());
        (visit, message, id, request)
    }

    /// The URI under which the source is open.
    pub fn uri(&self) -> (uri: &str)
        ensures
            uri@ == self@.uri,
    {
        self.uri.as_str()
    }

    /// Take in the diagnostics, once the server has answered: those of the
    /// answer, or those that it has published.
    pub fn collect<R, W>(&mut self, client: &mut Client<R, W>, pulled: Vec<Diagnostic>)
        ensures
            final(self)@ == (VisitView {
                diagnostics: collected(old(client)@, old(self)@.uri, diagnostic_views(pulled@)),
                asked: 0,
                ..old(self)@
            }),
            final(client)@ == after_collecting(old(client)@),
    {
        self.diagnostics = client.collect_diagnostics_for(self.uri.as_str(), pulled);
        self.asked = 0;
    }

    /// Ask for the fixes of the next diagnostic; nothing is left to ask once
    /// every one has had its turn.
    pub fn ask_fixes<R, W>(&mut self, client: &mut Client<R, W>) -> (sent: Option<
        (RequestId, Message),
    >)
        requires
            old(client)@.next_id < i32::MAX,
        ensures
            if 0 <= old(self)@.asked < old(self)@.diagnostics.len() {
                &&& sent matches Some(pair) && (pair.0@, pair.1@) == request_of(
                    old(client)@,
                    "textDocument/codeAction"@,
                    code_action_json(
                        old(self)@.uri,
                        old(self)@.diagnostics[old(self)@.asked],
                    ),
                )
                &&& final(client)@ == requested(old(client)@)
                &&& final(self)@ == (VisitView { asked: old(self)@.asked + 1, ..old(self)@ })
            } else {
                sent is None && final(client)@ == old(client)@ && final(self)@ == old(self)@
            },
    {
        let total: usize = self.diagnostics.len();
        if self.asked < total {
            let at = self.asked;
            assert(diagnostic_views(self.diagnostics@)[at as int] == self.diagnostics@[at as int]@);
            let sent = client.code_actions(self.uri.as_str(), &self.diagnostics[at]);
            self.asked = at + 1;
            Some(sent)
        } else {
            None
        }
    }

    /// Take in what the server offers.
    pub fn on_actions(&mut self, actions: Vec<Action>)
        ensures
            final(self)@ == visit_with(old(self)@, action_views(actions@)),
    {
        gather_edits(&mut self.edits, actions, self.uri.as_str());
    }

    /// Close the source: gives the notification to be sent, its diagnostics, and
    /// what the offered edits make of it.
    pub fn close<R, W>(self, client: &mut Client<R, W>) -> (end: (
        Message,
        FileDiagnostics,
        Rewrite,
    ))
        ensures
            final(client)@ == old(client)@,
            end.0@ == notification_of("textDocument/didClose"@, document_json(self@.uri)),
            end.1@ == (FileView { path: self@.path, diagnostics: self@.diagnostics }),
            end.2@ == edits_rewrite(encode_utf8(self@.text), self@.edits),
    {
        let message = client.close_document(self.uri.as_str());
        let rewrite = fix_source(self.text.as_str(), self.edits.as_slice());
        (message, FileDiagnostics { path: self.path, diagnostics: self.diagnostics }, rewrite)
    }
}

/// The URI of the source that is open.
pub open spec fn open_uri(run: Option<VisitView>) -> Option<Seq<char>> {
    match run {
        Some(visit) => Some(visit.uri),
        None => None,
    }
}

/// A message that opens a document.
pub open spec fn opening(message: MessageView, uri: Seq<char>) -> bool {
    exists|language: Seq<char>, text: Seq<char>|
        message == notification_of(
            "textDocument/didOpen"@,
            #[trigger] open_json(uri, language, text),
        )
}

/// A message that closes a document.
pub open spec fn closing(message: MessageView, uri: Seq<char>) -> bool {
    message == notification_of("textDocument/didClose"@, document_json(uri))
}

/// What a run may send: where no source is open, a message that opens one; where
/// one is open, a request or the message that closes it.
pub open spec fn run_sends(
    before: Option<Seq<char>>,
    message: MessageView,
    after: Option<Seq<char>>,
) -> bool {
    match (before, after) {
        (None, Some(uri)) => opening(message, uri),
        (Some(uri), Some(same)) => uri == same && message is Request,
        (Some(uri), None) => closing(message, uri),
        (None, None) => false,
    }
}

/// A run: the source that is open before the first message, and after each.
pub open spec fn run_of(open: Seq<Option<Seq<char>>>, messages: Seq<MessageView>) -> bool {
    &&& open.len() == messages.len() + 1
    &&& forall|i: int|
        0 <= i < messages.len() ==> run_sends(open[i], #[trigger] messages[i], open[i + 1])
}

/// A run source by source. It holds the source that is open, and opens none
/// while there is one.
pub struct SourceRun {
    visit: Option<Visit>,
}

impl View for SourceRun {
    type V = Option<VisitView>;

    closed spec fn view(&self) -> Option<VisitView> {
        match self.visit {
            Some(visit) => Some(visit@),
            None => None,
        }
    }
}

impl SourceRun {
    pub fn new() -> (run: SourceRun)
        ensures
            run@ is None,
    {
        SourceRun { visit: None }
    }

    /// Open the next source under a URI and in a language, and ask for its
    /// diagnostics: gives the notification and the request to be sent, and
    /// nothing while a source is open.
    pub fn begin_at<R, W>(
        &mut self,
        client: &mut Client<R, W>,
        path: &str,
        text: &str,
        uri: String,
        language: &str,
    ) -> (begun: Option<(Message, RequestId, Message)>)
        requires
            old(client)@.next_id < i32::MAX,
        ensures
            match begun {
                Some(sent) => {
                    &&& old(self)@ is None
                    &&& final(self)@ == Some(fresh_visit(path@, text@, uri@))
                    &&& sent.0@ == notification_of(
                        "textDocument/didOpen"@,
                        open_json(uri@, language@, text@),
                    )
                    &&& (sent.1@, sent.2@) == diagnostics_request(old(client)@, uri@)
                    &&& final(client)@ == requested(old(client)@)
                    &&& run_sends(None, sent.0@, Some(uri@))
                    &&& run_sends(Some(uri@), sent.2@, Some(uri@))
                },
                None => old(self)@ is Some && final(self)@ == old(self)@ && final(client)@ == old(
                    client,
                )@,
            },
    {
        if self.visit.is_some() {
            return None;
        }
        let (visit, message, id, request) = Visit::begin_at(client, path, text, uri, language);
        self.visit = Some(visit);
        proof {
            let opened = open_json(uri@, language@, text@);
            assert(message@ == notification_of("textDocument/didOpen"@, opened));
        }
        Some((message, id, request))
    }

    /// Open the next source and ask for its diagnostics: gives the notification
    /// and the request to be sent, and nothing while a source is open. Which paths
    /// are absolute, and what the URI of one that does not begin with a single
    /// slash is, rests on the platform.
    pub fn begin<R, W>(
        &mut self,
        client: &mut Client<R, W>,
        config: &LintConfig,
        path: &str,
        text: &str,
    ) -> (begun: Result<Option<(Message, RequestId, Message)>, SourceError>)
        requires
            old(client)@.next_id < i32::MAX,
        ensures
            path@.len() == 0 || plainly_relative(path@) ==> begun is Err,
            match begun {
                Ok(Some(sent)) => {
                    let visit = final(self)@->0;
                    &&& old(self)@ is None
                    &&& final(self)@ is Some
                    &&& visit == fresh_visit(path@, text@, visit.uri)
                    &&& source_opened(visit.uri, sent.0@, path@, text@, config.include_languages@)
                    &&& (sent.1@, sent.2@) == diagnostics_request(old(client)@, visit.uri)
                    &&& final(client)@ == requested(old(client)@)
                    &&& run_sends(None, sent.0@, Some(visit.uri))
                    &&& run_sends(Some(visit.uri), sent.2@, Some(visit.uri))
                },
                Ok(None) => old(self)@ is Some && final(self)@ == old(self)@ && final(client)@
                    == old(client)@,
                Err(SourceError::RelativePath(relative)) => relative@ == path@ && final(self)@
                    == old(self)@ && final(client)@ == old(client)@,
            },
    {
        match file_uri(path) {
            Some(uri) => {
                let ghost name = uri@;
                let language = language_id_for(config, path);
                let begun = self.begin_at(client, path, text, uri, language.as_str());
                assert(begun matches Some(sent) ==> source_opened(
                    name,
                    sent.0@,
                    path@,
                    text@,
                    config.include_languages@,
                ));
                Ok(begun)
            },
            None => Err(SourceError::RelativePath(path.to_string())),
        }
    }

    /// Take in the diagnostics of the source that is open.
    pub fn collect<R, W>(&mut self, client: &mut Client<R, W>, pulled: Vec<Diagnostic>)
        ensures
            match old(self)@ {
                Some(visit) => final(self)@ == Some(
                    VisitView {
                        diagnostics: collected(
                            old(client)@,
                            visit.uri,
                            diagnostic_views(pulled@),
                        ),
                        asked: 0,
                        ..visit
                    },
                ) && final(client)@ == after_collecting(old(client)@),
                None => final(self)@ is None && final(client)@ == old(client)@,
            },
    {
        if let Some(mut visit) = self.visit.take() {
            visit.collect(client, pulled);
            self.visit = Some(visit);
        }
    }

    /// Ask for the fixes of the next diagnostic of the source that is open.
    pub fn ask_fixes<R, W>(&mut self, client: &mut Client<R, W>) -> (sent: Option<
        (RequestId, Message),
    >)
        requires
            old(client)@.next_id < i32::MAX,
        ensures
            match old(self)@ {
                Some(visit) => if 0 <= visit.asked < visit.diagnostics.len() {
                    &&& sent matches Some(pair) && (pair.0@, pair.1@) == request_of(
                        old(client)@,
                        "textDocument/codeAction"@,
                        code_action_json(visit.uri, visit.diagnostics[visit.asked]),
                    )
                    &&& final(client)@ == requested(old(client)@)
                    &&& final(self)@ == Some(VisitView { asked: visit.asked + 1, ..visit })
                } else {
                    sent is None && final(client)@ == old(client)@ && final(self)@ == old(self)@
                },
                None => sent is None && final(client)@ == old(client)@ && final(self)@ is None,
            },
            sent matches Some(pair) ==> run_sends(
                open_uri(old(self)@),
                pair.1@,
                open_uri(final(self)@),
            ),
    {
        if let Some(mut visit) = self.visit.take() {
            let sent = visit.ask_fixes(client);
            self.visit = Some(visit);
            sent
        } else {
            None
        }
    }

    /// Take in what the server offers for the source that is open.
    pub fn on_actions(&mut self, actions: Vec<Action>)
        ensures
            final(self)@ == match old(self)@ {
                Some(visit) => Some(visit_with(visit, action_views(actions@))),
                None => None,
            },
    {
        if let Some(mut visit) = self.visit.take() {
            visit.on_actions(actions);
            self.visit = Some(visit);
        }
    }

    /// Close the source that is open: gives the notification to be sent, its
    /// diagnostics, and what the offered edits make of it.
    pub fn close<R, W>(&mut self, client: &mut Client<R, W>) -> (end: Option<
        (Message, FileDiagnostics, Rewrite),
    >)
        ensures
            final(client)@ == old(client)@,
            final(self)@ is None,
            match old(self)@ {
                Some(visit) => end matches Some(parts) && parts.0@ == notification_of(
                    "textDocument/didClose"@,
                    document_json(visit.uri),
                ) && parts.1@ == (FileView { path: visit.path, diagnostics: visit.diagnostics })
                    && parts.2@ == edits_rewrite(encode_utf8(visit.text), visit.edits),
                None => end is None,
            },
            end matches Some(parts) ==> run_sends(
                open_uri(old(self)@),
                parts.0@,
                open_uri(final(self)@),
            ),
    {
        match self.visit.take() {
            Some(visit) => Some(visit.close(client)),
            None => None,
        }
    }
}

/// A message that opens a document is sent where none is open, and its document
/// is open behind it.
proof fn lemma_opening(
    before: Option<Seq<char>>,
    message: MessageView,
    after: Option<Seq<char>>,
    uri: Seq<char>,
)
    requires
        run_sends(before, message, after),
        opening(message, uri),
    ensures
        before is None,
        after == Some(uri),
{
    reveal_strlit("textDocument/didOpen");
    reveal_strlit("textDocument/didClose");
    assert("textDocument/didOpen"@.len() != "textDocument/didClose"@.len());
    if let Some(opened) = after {
        if before is None {
            let (l1, t1) = choose|language: Seq<char>, text: Seq<char>|
                message == notification_of(
                    "textDocument/didOpen"@,
                    #[trigger] open_json(uri, language, text),
                );
            let (l2, t2) = choose|language: Seq<char>, text: Seq<char>|
                message == notification_of(
                    "textDocument/didOpen"@,
                    #[trigger] open_json(opened, language, text),
                );
            let left = open_json(uri, l1, t1);
            let right = open_json(opened, l2, t2);
            assert(left == right);
            assert(left->Object_0[0].value == right->Object_0[0].value);
            assert(left->Object_0[0].value->Object_0[0].value
                == right->Object_0[0].value->Object_0[0].value);
        }
    }
}

proof fn lemma_closed_between(
    open: Seq<Option<Seq<char>>>,
    messages: Seq<MessageView>,
    i: int,
    j: int,
    uri: Seq<char>,
) -> (k: int)
    requires
        run_of(open, messages),
        0 <= i <= j <= messages.len(),
        open[i] == Some(uri),
        open[j] is None,
    ensures
        i <= k < j,
        closing(messages[k], uri),
    decreases j - i,
{
    assert(run_sends(open[i], messages[i], open[i + 1]));
    if open[i + 1] is None {
        i
    } else {
        lemma_closed_between(open, messages, i + 1, j, uri)
    }
}

/// A source is closed before the next one is opened: between two messages that
/// open a document stands the one that closes the first, so that the server
/// never holds two.
pub proof fn law_one_source_at_a_time(
    open: Seq<Option<Seq<char>>>,
    messages: Seq<MessageView>,
    i: int,
    j: int,
    first: Seq<char>,
    second: Seq<char>,
)
    requires
        run_of(open, messages),
        0 <= i < j < messages.len(),
        opening(messages[i], first),
        opening(messages[j], second),
    ensures
        exists|k: int| i < k < j && closing(#[trigger] messages[k], first),
{
    assert(run_sends(open[i], messages[i], open[i + 1]));
    assert(run_sends(open[j], messages[j], open[j + 1]));
    lemma_opening(open[i], messages[i], open[i + 1], first);
    lemma_opening(open[j], messages[j], open[j + 1], second);
    let k = lemma_closed_between(open, messages, i + 1, j, first);
    assert(closing(messages[k], first));
}

} // verus!
