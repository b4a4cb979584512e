//! The client's side of a session with the language server: the messages that
//! it sends, and what it makes of those that arrive.
use crate::cli::LintConfig;
use crate::json::{
    field, json_views, lemma_array_view, value_at, EntryView, Fields, Json, JsonView,
};
use crate::lsp::transport::{
    Message, MessageView, Notification, NotificationView, Request, RequestId, RequestIdView,
    RequestView, Response, ResponseView, Transport,
};
use crate::paths::{directory_uri, directory_uri_for, plainly_relative};
use crate::protocol::{
    diagnostic_views, published_views, Diagnostic, DiagnosticView, Position, PublishedDiagnostics,
    PublishedView, Range,
};
use crate::settings::{settings_for, tailwind_settings};
use crate::text::{decimal, same_text, strings};
use vstd::prelude::*;
use vstd::string::*;

verus! {

/// The command line that starts the server: with a node runtime given, that
/// runtime and the server; else the server alone.
pub open spec fn command_line(server: Seq<char>, node: Option<Seq<char>>) -> Seq<Seq<char>> {
    match node {
        Some(runtime) => seq![runtime, server, "--stdio"@],
        None => seq![server, "--stdio"@],
    }
}

/// The command line that starts the server.
pub fn server_command_line(config: &LintConfig) -> (words: Vec<String>)
    ensures
        strings(words@) == command_line(
            config.server_command@,
            match config.node {
                Some(node) => Some(node@),
                None => None,
            },
        ),
{
    let mut words: Vec<String> = Vec::new();
    if let Some(node) = &config.node {
        words.push(node.clone());
    }
    words.push(config.server_command.clone());
    words.push("--stdio".to_string());
    assert(strings(words@) =~= command_line(
        config.server_command@,
        match config.node {
            Some(node) => Some(node@),
            None => None,
        },
    ));
    words
}

pub open spec fn object(entries: Seq<EntryView>) -> JsonView {
    JsonView::Object(entries)
}

/// What the client can do.
pub open spec fn capabilities() -> JsonView {
    object(
        seq![
            field(
                "workspace"@,
                object(
                    seq![
                        field("configuration"@, JsonView::Bool(true)),
                        field("didChangeConfiguration"@, object(Seq::empty())),
                    ],
                ),
            ),
            field(
                "textDocument"@,
                object(
                    seq![
                        field("publishDiagnostics"@, object(Seq::empty())),
                        field("codeAction"@, code_action_support()),
                    ],
                ),
            ),
        ],
    )
}

/// The kinds of code actions that the client takes.
pub open spec fn code_action_support() -> JsonView {
    object(
        seq![
            field(
                "codeActionLiteralSupport"@,
                object(
                    seq![
                        field(
                            "codeActionKind"@,
                            object(
                                seq![
                                    field(
                                        "valueSet"@,
                                        JsonView::Array(
                                            seq![
                                                JsonView::Text("quickfix"@),
                                                JsonView::Text("source"@),
                                            ],
                                        ),
                                    ),
                                ],
                            ),
                        ),
                    ],
                ),
            ),
        ],
    )
}

/// What the server is told first: who asks, where the project is, and what the
/// client can do.
pub open spec fn initialize_params(process: u32, uri: Seq<char>) -> JsonView {
    object(
        seq![
            field("processId"@, JsonView::Number(decimal(process as nat))),
            field("rootUri"@, JsonView::Text(uri)),
            field("capabilities"@, capabilities()),
            field(
                "workspaceFolders"@,
                JsonView::Array(
                    seq![
                        object(
                            seq![
                                field("uri"@, JsonView::Text(uri)),
                                field("name"@, JsonView::Text("root"@)),
                            ],
                        ),
                    ],
                ),
            ),
        ],
    )
}

fn code_action_support_value() -> (json: Json)
    ensures
        json@ == code_action_support(),
{
    let mut kinds: Vec<Json> = Vec::new();
    kinds.push(Json::text("quickfix"));
    kinds.push(Json::text("source"));
    proof {
        lemma_array_view(kinds);
        assert(json_views(kinds@) =~= seq![JsonView::Text("quickfix"@), JsonView::Text("source"@)]);
    }
    let set = Fields::new().with("valueSet", Json::Array(kinds));
    let kind = Fields::new().with("codeActionKind", set.object());
    let literal = Fields::new().with("codeActionLiteralSupport", kind.object());
    proof {
        let expected = code_action_support()->Object_0;
        let inner = expected[0].value->Object_0;
        assert(set@ =~= inner[0].value->Object_0);
        assert(kind@ =~= inner);
        assert(literal@ =~= expected);
    }
    literal.object()
}

fn capabilities_value() -> (json: Json)
    ensures
        json@ == capabilities(),
{
    let workspace = Fields::new().with("configuration", Json::Bool(true)).with(
        "didChangeConfiguration",
        Fields::new().object(),
    );
    let document = Fields::new().with("publishDiagnostics", Fields::new().object()).with(
        "codeAction",
        code_action_support_value(),
    );
    let all = Fields::new().with("workspace", workspace.object()).with(
        "textDocument",
        document.object(),
    );
    proof {
        let expected = capabilities()->Object_0;
        assert(workspace@ =~= expected[0].value->Object_0);
        assert(document@ =~= expected[1].value->Object_0);
        assert(all@ =~= expected);
    }
    all.object()
}

fn initialize_value(process: u32, uri: &str) -> (json: Json)
    ensures
        json@ == initialize_params(process, uri@),
{
    let folder = Fields::new().with("uri", Json::text(uri)).with("name", Json::text("root"));
    let all = Fields::new().with("processId", Json::number(process as u64)).with(
        "rootUri",
        Json::text(uri),
    ).with("capabilities", capabilities_value()).with(
        "workspaceFolders",
        Json::single(folder.object()),
    );
    proof {
        let expected = initialize_params(process, uri@)->Object_0;
        let folders = expected[3].value->Array_0;
        assert(folder@ =~= folders[0]->Object_0);
        assert(all@[3].value->Array_0 =~= folders);
        assert(all@ =~= expected);
    }
    all.object()
}

/// A document that a message is about.
pub open spec fn document_json(uri: Seq<char>) -> JsonView {
    object(seq![field("textDocument"@, object(seq![field("uri"@, JsonView::Text(uri))]))])
}

/// The document that is opened.
pub open spec fn open_json(uri: Seq<char>, language: Seq<char>, text: Seq<char>) -> JsonView {
    object(
        seq![
            field(
                "textDocument"@,
                object(
                    seq![
                        field("uri"@, JsonView::Text(uri)),
                        field("languageId"@, JsonView::Text(language)),
                        field("version"@, JsonView::Number(decimal(1))),
                        field("text"@, JsonView::Text(text)),
                    ],
                ),
            ),
        ],
    )
}

/// The document that gets a new text.
pub open spec fn change_json(uri: Seq<char>, version: nat, text: Seq<char>) -> JsonView {
    object(
        seq![
            field(
                "textDocument"@,
                object(
                    seq![
                        field("uri"@, JsonView::Text(uri)),
                        field("version"@, JsonView::Number(decimal(version))),
                    ],
                ),
            ),
            field(
                "contentChanges"@,
                JsonView::Array(seq![object(seq![field("text"@, JsonView::Text(text))])]),
            ),
        ],
    )
}

pub open spec fn position_json(position: Position) -> JsonView {
    object(
        seq![
            field("line"@, JsonView::Number(decimal(position.line as nat))),
            field("character"@, JsonView::Number(decimal(position.character as nat))),
        ],
    )
}

pub open spec fn range_json(range: Range) -> JsonView {
    object(
        seq![
            field("start"@, position_json(range.start)),
            field("end"@, position_json(range.end)),
        ],
    )
}

/// The question for the fixes of a diagnostic.
pub open spec fn code_action_json(uri: Seq<char>, diagnostic: DiagnosticView) -> JsonView {
    object(
        seq![
            field("textDocument"@, object(seq![field("uri"@, JsonView::Text(uri))])),
            field("range"@, range_json(diagnostic.range)),
            field(
                "context"@,
                object(seq![field("diagnostics"@, JsonView::Array(seq![diagnostic.sent]))]),
            ),
        ],
    )
}

fn document_value(uri: &str) -> (json: Json)
    ensures
        json@ == document_json(uri@),
{
    let inner = Fields::new().with("uri", Json::text(uri));
    let all = Fields::new().with("textDocument", inner.object());
    proof {
        let expected = document_json(uri@)->Object_0;
        assert(inner@ =~= expected[0].value->Object_0);
        assert(all@ =~= expected);
    }
    all.object()
}

fn open_value(uri: &str, language: &str, text: &str) -> (json: Json)
    ensures
        json@ == open_json(uri@, language@, text@),
{
    let inner = Fields::new().with("uri", Json::text(uri)).with(
        "languageId",
        Json::text(language),
    ).with("version", Json::number(1)).with("text", Json::text(text));
    let all = Fields::new().with("textDocument", inner.object());
    proof {
        let expected = open_json(uri@, language@, text@)->Object_0;
        assert(inner@ =~= expected[0].value->Object_0);
        assert(all@ =~= expected);
    }
    all.object()
}

fn change_value(uri: &str, version: u32, text: &str) -> (json: Json)
    ensures
        json@ == change_json(uri@, version as nat, text@),
{
    let inner = Fields::new().with("uri", Json::text(uri)).with(
        "version",
        Json::number(version as u64),
    );
    let change = Fields::new().with("text", Json::text(text));
    let all = Fields::new().with("textDocument", inner.object()).with(
        "contentChanges",
        Json::single(change.object()),
    );
    proof {
        let expected = change_json(uri@, version as nat, text@)->Object_0;
        let changes = expected[1].value->Array_0;
        assert(inner@ =~= expected[0].value->Object_0);
        assert(change@ =~= changes[0]->Object_0);
        assert(all@[1].value->Array_0 =~= changes);
        assert(all@ =~= expected);
    }
    all.object()
}

fn position_value(position: &Position) -> (json: Json)
    ensures
        json@ == position_json(*position),
{
    let all = Fields::new().with("line", Json::number(position.line as u64)).with(
        "character",
        Json::number(position.character as u64),
    );
    assert(all@ =~= position_json(*position)->Object_0);
    all.object()
}

fn range_value(range: &Range) -> (json: Json)
    ensures
        json@ == range_json(*range),
{
    let all = Fields::new().with("start", position_value(&range.start)).with(
        "end",
        position_value(&range.end),
    );
    assert(all@ =~= range_json(*range)->Object_0);
    all.object()
}

fn code_action_value(uri: &str, diagnostic: &Diagnostic) -> (json: Json)
    ensures
        json@ == code_action_json(uri@, diagnostic@),
{
    let inner = Fields::new().with("uri", Json::text(uri));
    let context = Fields::new().with("diagnostics", Json::single(diagnostic.sent.copy()));
    let all = Fields::new().with("textDocument", inner.object()).with(
        "range",
        range_value(&diagnostic.range),
    ).with("context", context.object());
    proof {
        let expected = code_action_json(uri@, diagnostic@)->Object_0;
        assert(inner@ =~= expected[0].value->Object_0);
        assert(context@ =~= expected[2].value->Object_0);
        assert(all@ =~= expected);
    }
    all.object()
}

/// The settings that the server asks for, item by item: the linter's own for its
/// section, nothing for any other.
pub open spec fn configuration_reply(params: JsonView, settings: JsonView) -> JsonView {
    match value_at(params, "items"@) {
        Some(JsonView::Array(items)) => JsonView::Array(
            items.map_values(
                |item: JsonView|
                    if value_at(item, "section"@) == Some(JsonView::Text("tailwindCSS"@)) {
                        settings
                    } else {
                        JsonView::Null
                    },
            ),
        ),
        _ => JsonView::Array(Seq::empty()),
    }
}

/// What a request of the server is answered: its settings where it asks for
/// them, and an acknowledgement of anything else.
pub open spec fn answer_to(request: RequestView, settings: JsonView) -> JsonView {
    if request.method == "workspace/configuration"@ {
        configuration_reply(request.params, settings)
    } else {
        JsonView::Null
    }
}

/// The server gets one answer for each item that it asks for.
pub proof fn law_one_answer_per_item(params: JsonView, settings: JsonView)
    ensures
        value_at(params, "items"@) matches Some(JsonView::Array(items)) ==> {
            let reply = configuration_reply(params, settings);
            &&& reply is Array
            &&& reply->Array_0.len() == items.len()
            &&& forall|i: int|
                0 <= i < items.len() ==> #[trigger] reply->Array_0[i] == settings
                    || reply->Array_0[i] == JsonView::Null
        },
{
}

fn configuration_value(params: &Json, settings: &Json) -> (json: Json)
    ensures
        json@ == configuration_reply(params@, settings@),
{
    let mut reply: Vec<Json> = Vec::new();
    let ghost wanted = configuration_reply(params@, settings@)->Array_0;
    if let Some(Json::Array(items)) = params.get("items") {
        proof {
            lemma_array_view(*items);
        }
        let mut i: usize = 0;
        while i < items.len()
            invariant
                i <= items@.len(),
                wanted == json_views(items@).map_values(
                    |item: JsonView|
                        if value_at(item, "section"@) == Some(JsonView::Text("tailwindCSS"@)) {
                            settings@
                        } else {
                            JsonView::Null
                        },
                ),
                reply@.len() == i,
                forall|j: int| 0 <= j < i ==> (#[trigger] reply@[j])@ == wanted[j],
            decreases items@.len() - i,
        {
            let item = &items[i];
            assert(json_views(items@)[i as int] == item@);
            let own = match item.get("section") {
                Some(section) => section.is_text("tailwindCSS"),
                None => false,
            };
            if own {
                reply.push(settings.copy());
            } else {
                reply.push(Json::Null);
            }
            i += 1;
        }
    }
    proof {
        lemma_array_view(reply);
        assert(json_views(reply@) =~= wanted);
    }
    Json::Array(reply)
}

/// What came of a message that arrived while a request was pending.
#[derive(Debug)]
pub enum Event {
    /// The request is answered.
    Answered(Json),
    /// The request has failed.
    Failed(String),
    /// This message is to be sent, and the next one read.
    Reply(Message),
    /// The next message is to be read.
    Wait,
}

pub enum EventView {
    Answered(JsonView),
    Failed(Seq<char>),
    Reply(MessageView),
    Wait,
}

impl View for Event {
    type V = EventView;

    open spec fn view(&self) -> EventView {
        match self {
            Event::Answered(result) => EventView::Answered(result@),
            Event::Failed(error) => EventView::Failed(error@),
            Event::Reply(message) => EventView::Reply(message@),
            Event::Wait => EventView::Wait,
        }
    }
}

/// What comes of a message: the response to the pending request ends it, any
/// other is passed over; a request of the server is answered; a notification is
/// taken in.
pub open spec fn event_of(
    pending: RequestIdView,
    method: Seq<char>,
    message: MessageView,
    settings: JsonView,
) -> EventView {
    match message {
        MessageView::Response(response) => if response.id != pending {
            EventView::Wait
        } else {
            match response.error {
                Some(error) => EventView::Failed(
                    "server error for "@ + method + ": "@ + error,
                ),
                None => match response.result {
                    Some(result) => EventView::Answered(result),
                    None => EventView::Answered(JsonView::Null),
                },
            }
        },
        MessageView::Request(request) => EventView::Reply(
            MessageView::Response(
                ResponseView {
                    id: request.id,
                    result: Some(answer_to(request, settings)),
                    error: None,
                },
            ),
        ),
        MessageView::Notification(_) => EventView::Wait,
    }
}

/// The diagnostics after a message: those that it publishes come last.
pub open spec fn absorbed(
    diagnostics: Seq<PublishedView>,
    message: MessageView,
    published: Option<PublishedView>,
) -> Seq<PublishedView> {
    match (message, published) {
        (MessageView::Notification(note), Some(more)) => if note.method
            == "textDocument/publishDiagnostics"@ {
            diagnostics.push(more)
        } else {
            diagnostics
        },
        _ => diagnostics,
    }
}

/// Whether a server hands out diagnostics when it is asked for them.
pub open spec fn advertises_pull(result: JsonView) -> bool {
    match value_at(result, "capabilities"@) {
        Some(capabilities) => match value_at(capabilities, "diagnosticProvider"@) {
            Some(provider) => provider != JsonView::Null,
            None => false,
        },
        None => false,
    }
}

/// The diagnostics that were published for a document, in the order in which
/// they came.
pub open spec fn published_for(
    list: Seq<PublishedView>,
    uri: Seq<char>,
) -> Seq<DiagnosticView>
    decreases list.len(),
{
    if list.len() == 0 {
        Seq::empty()
    } else {
        let before = published_for(list.drop_last(), uri);
        if list.last().uri == uri {
            before + list.last().diagnostics
        } else {
            before
        }
    }
}

/// Pick out the diagnostics of a document.
pub fn diagnostics_of(list: Vec<PublishedDiagnostics>, uri: &str) -> (diagnostics: Vec<Diagnostic>)
    ensures
        diagnostic_views(diagnostics@) == published_for(published_views(list@), uri@),
{
    let mut diagnostics: Vec<Diagnostic> = Vec::new();
    let ghost items = list@;
    let ghost all = published_views(items);
    assert(diagnostic_views(diagnostics@) =~= Seq::empty());
    for params in it: list.into_iter()
        invariant
            it.seq() == items,
            all == published_views(items),
            diagnostic_views(diagnostics@) == published_for(all.take(it.index() as int), uri@),
    {
        let ghost n = it.index() as int;
        let ghost before = diagnostics@;
        proof {
            assert(all.take(n + 1).drop_last() =~= all.take(n));
            assert(all.take(n + 1).last() == params@);
        }
        if same_text(params.uri.as_str(), uri) {
            let mut more = params.diagnostics;
            let ghost added = more@;
            diagnostics.append(&mut more);
            assert(diagnostic_views(diagnostics@) =~= diagnostic_views(before) + diagnostic_views(
                added,
            ));
        }
    }
    assert(all.take(all.len() as int) =~= all);
    diagnostics
}

/// Why no session with a server was begun.
#[derive(Debug)]
pub enum LaunchError {
    /// The root is not an absolute path.
    RelativeRoot(String),
}

impl LaunchError {
    pub fn message(&self) -> (text: String)
        ensures
            text@ == match self {
                LaunchError::RelativeRoot(root) => "root is not an absolute path: "@ + root@,
            },
    {
        match self {
            LaunchError::RelativeRoot(root) => {
                let mut text = "root is not an absolute path: ".to_string();
                text.append(root.as_str());
                text
            },
        }
    }
}

/// A session with a server: the connection, the settings that the server may ask
/// for, and the diagnostics that it has published.
pub struct Client<R, W> {
    pub transport: Transport<R, W>,
    settings: Json,
    diagnostics: Vec<PublishedDiagnostics>,
    pulls: bool,
}

pub struct ClientView<R, W> {
    pub ends: (R, W),
    pub next_id: i32,
    pub settings: JsonView,
    pub diagnostics: Seq<PublishedView>,
    pub pulls: bool,
}

impl<R, W> View for Client<R, W> {
    type V = ClientView<R, W>;

    closed spec fn view(&self) -> ClientView<R, W> {
        ClientView {
            ends: (self.transport.reader, self.transport.writer),
            next_id: self.transport.next_id,
            settings: self.settings@,
            diagnostics: published_views(self.diagnostics@),
            pulls: self.pulls,
        }
    }
}

/// A client that sends one more request.
pub open spec fn requested<R, W>(before: ClientView<R, W>) -> ClientView<R, W> {
    ClientView { next_id: (before.next_id + 1) as i32, ..before }
}

/// The request that a client sends.
pub open spec fn request_of<R, W>(
    before: ClientView<R, W>,
    method: Seq<char>,
    params: JsonView,
) -> (RequestIdView, MessageView) {
    let id = RequestIdView::Number((before.next_id + 1) as i32);
    (id, MessageView::Request(RequestView { id, method, params }))
}

/// The request that a client sends for the diagnostics of a document. A server
/// that hands them out is asked for them; any other is asked something that it
/// answers once it has published them.
pub open spec fn diagnostics_request<R, W>(before: ClientView<R, W>, uri: Seq<char>) -> (
    RequestIdView,
    MessageView,
) {
    request_of(
        before,
        if before.pulls {
            "textDocument/diagnostic"@
        } else {
            "textDocument/documentColor"@
        },
        document_json(uri),
    )
}

/// The diagnostics of a document: those of the server's answer, or those that it
/// has published.
pub open spec fn collected<R, W>(
    before: ClientView<R, W>,
    uri: Seq<char>,
    pulled: Seq<DiagnosticView>,
) -> Seq<DiagnosticView> {
    if before.pulls {
        pulled
    } else {
        published_for(before.diagnostics, uri)
    }
}

/// A client once a document's diagnostics were collected: what was published so
/// far is not kept.
pub open spec fn after_collecting<R, W>(before: ClientView<R, W>) -> ClientView<R, W> {
    ClientView { diagnostics: Seq::empty(), ..before }
}

/// A notification.
pub open spec fn notification_of(method: Seq<char>, params: JsonView) -> MessageView {
    MessageView::Notification(NotificationView { method, params })
}

/// A session that has begun on a root with a given URI: the server is to be
/// asked to initialize itself, in the first request.
pub open spec fn session_begun<R, W>(
    begun: (ClientView<R, W>, RequestIdView, MessageView),
    config: LintConfig,
    uri: Seq<char>,
    process: u32,
    ends: (R, W),
) -> bool {
    &&& begun.0.ends == ends
    &&& begun.0.next_id == 1
    &&& settings_for(begun.0.settings, config)
    &&& begun.0.diagnostics == Seq::<PublishedView>::empty()
    &&& !begun.0.pulls
    &&& begun.1 == RequestIdView::Number(1)
    &&& begun.2 == MessageView::Request(
        RequestView {
            id: begun.1,
            method: "initialize"@,
            params: initialize_params(process, uri),
        },
    )
}

impl<R, W> Client<R, W> {
    /// Begin a session on a root with a given URI: gives the first request.
    pub fn begin(config: &LintConfig, uri: &str, process: u32, reader: R, writer: W) -> (begun: (
        Client<R, W>,
        RequestId,
        Message,
    ))
        ensures
            session_begun(
                (begun.0@, begun.1@, begun.2@),
                *config,
                uri@,
                process,
                (reader, writer),
            ),
    {
        let mut client = Client {
            transport: Transport::new(reader, writer),
            settings: tailwind_settings(config),
            diagnostics: Vec::new(),
            pulls: false,
        };
        assert(client@.diagnostics =~= Seq::empty());
        let (id, message) = client.request("initialize", initialize_value(process, uri));
        (client, id, message)
    }

    /// Begin a session on a root: gives the first request, whose answer is to be
    /// handed in with `on_initialized`. Which paths are absolute, and what the
    /// URI of one that does not begin with a single slash is, rests on the
    /// platform.
    pub fn launch(config: &LintConfig, root: &str, process: u32, reader: R, writer: W) -> (begun:
        Result<(Client<R, W>, RequestId, Message), LaunchError>)
        ensures
            root@.len() == 0 || plainly_relative(root@) ==> begun is Err,
            match begun {
                Ok(begun) => exists|uri: Seq<char>| #[trigger]
                    directory_uri_for(uri, root@) && session_begun(
                        (begun.0@, begun.1@, begun.2@),
                        *config,
                        uri,
                        process,
                        (reader, writer),
                    ),
                Err(LaunchError::RelativeRoot(path)) => path@ == root@,
            },
    {
        match directory_uri(root) {
            Some(uri) => {
                assert(directory_uri_for(uri@, root@));
                Ok(Client::begin(config, uri.as_str(), process, reader, writer))
            },
            None => Err(LaunchError::RelativeRoot(root.to_string())),
        }
    }

    /// Take in what the server said of itself; gives the notification that ends
    /// the beginning.
    pub fn on_initialized(&mut self, result: &Json) -> (message: Message)
        ensures
            final(self)@ == (ClientView { pulls: advertises_pull(result@), ..old(self)@ }),
            message@ == notification_of("initialized"@, object(Seq::empty())),
    {
        self.pulls = match result.get("capabilities") {
            Some(capabilities) => match capabilities.get("diagnosticProvider") {
                Some(Json::Null) => false,
                Some(_) => true,
                None => false,
            },
            None => false,
        };
        self.notify("initialized", Fields::new().object())
    }

    /// Whether another request can be sent: the numbers of requests are bounded.
    pub fn can_request(&self) -> (yes: bool)
        ensures
            yes == (self@.next_id < i32::MAX),
    {
        self.transport.next_id < i32::MAX
    }

    /// A notification to be sent.
    pub fn notify(&mut self, method: &str, params: Json) -> (message: Message)
        ensures
            final(self)@ == old(self)@,
            message@ == notification_of(method@, params@),
    {
        self.transport.send_notification(method, params)
    }

    /// A request to be sent. The messages that arrive are to be handed in with
    /// `on_message` until it is answered.
    pub fn request(&mut self, method: &str, params: Json) -> (sent: (RequestId, Message))
        requires
            old(self)@.next_id < i32::MAX,
        ensures
            final(self)@ == requested(old(self)@),
            (sent.0@, sent.1@) == request_of(old(self)@, method@, params@),
    {
        self.transport.send_request(method, params)
    }

    /// Answer a request of the server.
    fn answer(&mut self, request: Request) -> (message: Message)
        ensures
            final(self)@ == old(self)@,
            message@ == MessageView::Response(
                ResponseView {
                    id: request.id@,
                    result: Some(answer_to(request@, old(self)@.settings)),
                    error: None,
                },
            ),
    {
        let result = if same_text(request.method.as_str(), "workspace/configuration") {
            configuration_value(&request.params, &self.settings)
        } else {
            Json::Null
        };
        self.transport.send_response(request.id, result)
    }

    /// Take in a notification, with the diagnostics that it publishes, as far as
    /// its parameters could be read as such.
    fn absorb(&mut self, note: Notification, published: Option<PublishedDiagnostics>)
        ensures
            final(self)@ == (ClientView {
                diagnostics: absorbed(
                    old(self)@.diagnostics,
                    MessageView::Notification(note@),
                    match published {
                        Some(more) => Some(more@),
                        None => None,
                    },
                ),
                ..old(self)@
            }),
    {
        if same_text(note.method.as_str(), "textDocument/publishDiagnostics") {
            if let Some(more) = published {
                let ghost before = self.diagnostics@;
                self.diagnostics.push(more);
                assert(published_views(self.diagnostics@) =~= published_views(before).push(more@));
            }
        }
    }

    /// Take in a message while a request is pending. With a notification come
    /// the diagnostics that it publishes, as far as its parameters could be read
    /// as such.
    pub fn on_message(
        &mut self,
        pending: &RequestId,
        method: &str,
        message: Message,
        published: Option<PublishedDiagnostics>,
    ) -> (event: Event)
        ensures
            event@ == event_of(pending@, method@, message@, old(self)@.settings),
            final(self)@ == (ClientView {
                diagnostics: absorbed(
                    old(self)@.diagnostics,
                    message@,
                    match published {
                        Some(more) => Some(more@),
                        None => None,
                    },
                ),
                ..old(self)@
            }),
    {
        match message {
            Message::Response(response) => {
                if !response.id.same(pending) {
                    return Event::Wait;
                }
                match response.error {
                    Some(error) => {
                        let mut text = "server error for ".to_string();
                        text.append(method);
                        text.append(": ");
                        text.append(error.as_str());
                        Event::Failed(text)
                    },
                    None => match response.result {
                        Some(result) => Event::Answered(result),
                        None => Event::Answered(Json::Null),
                    },
                }
            },
            Message::Request(request) => Event::Reply(self.answer(request)),
            Message::Notification(note) => {
                self.absorb(note, published);
                Event::Wait
            },
        }
    }

    /// Take out the diagnostics that were published so far.
    pub fn take_diagnostics(&mut self) -> (list: Vec<PublishedDiagnostics>)
        ensures
            published_views(list@) == old(self)@.diagnostics,
            final(self)@ == (ClientView { diagnostics: Seq::empty(), ..old(self)@ }),
    {
        let mut list: Vec<PublishedDiagnostics> = Vec::new();
        std::mem::swap(&mut list, &mut self.diagnostics);
        assert(published_views(self.diagnostics@) =~= Seq::empty());
        list
    }

    /// The end of a session: the request to be sent, and the notification to be
    /// sent once it is answered.
    pub fn shutdown(&mut self) -> (sent: (RequestId, Message, Message))
        requires
            old(self)@.next_id < i32::MAX,
        ensures
            final(self)@ == requested(old(self)@),
            (sent.0@, sent.1@) == request_of(old(self)@, "shutdown"@, JsonView::Null),
            sent.2@ == notification_of("exit"@, JsonView::Null),
    {
        let (id, message) = self.request("shutdown", Json::Null);
        let exit = self.notify("exit", Json::Null);
        (id, message, exit)
    }

    /// Open a document, in its first version.
    pub fn open_document(&mut self, uri: &str, language: &str, text: &str) -> (message: Message)
        ensures
            final(self)@ == old(self)@,
            message@ == notification_of("textDocument/didOpen"@, open_json(uri@, language@, text@)),
    {
        self.notify("textDocument/didOpen", open_value(uri, language, text))
    }

    /// Give a document a new text.
    pub fn change_document(&mut self, uri: &str, text: &str, version: u32) -> (message: Message)
        ensures
            final(self)@ == old(self)@,
            message@ == notification_of(
                "textDocument/didChange"@,
                change_json(uri@, version as nat, text@),
            ),
    {
        self.notify("textDocument/didChange", change_value(uri, version, text))
    }

    /// Close a document, so that the server need not keep it.
    pub fn close_document(&mut self, uri: &str) -> (message: Message)
        ensures
            final(self)@ == old(self)@,
            message@ == notification_of("textDocument/didClose"@, document_json(uri@)),
    {
        self.notify("textDocument/didClose", document_value(uri))
    }

    /// Ask for a document's diagnostics.
    pub fn ask_diagnostics(&mut self, uri: &str) -> (sent: (RequestId, Message))
        requires
            old(self)@.next_id < i32::MAX,
        ensures
            final(self)@ == requested(old(self)@),
            (sent.0@, sent.1@) == diagnostics_request(old(self)@, uri@),
    {
        if self.pulls {
            self.request("textDocument/diagnostic", document_value(uri))
        } else {
            self.request("textDocument/documentColor", document_value(uri))
        }
    }

    /// Whether the server hands out diagnostics when it is asked for them.
    pub fn pulls_diagnostics(&self) -> (yes: bool)
        ensures
            yes == self@.pulls,
    {
        self.pulls
    }

    /// The diagnostics of a document once `ask_diagnostics` was answered: those
    /// of the answer, or those that were published for it.
    pub fn collect_diagnostics_for(&mut self, uri: &str, pulled: Vec<Diagnostic>) -> (diagnostics:
        Vec<Diagnostic>)
        ensures
            diagnostic_views(diagnostics@) == collected(
                old(self)@,
                uri@,
                diagnostic_views(pulled@),
            ),
            final(self)@ == after_collecting(old(self)@),
    {
        let list = self.take_diagnostics();
        if self.pulls {
            pulled
        } else {
            diagnostics_of(list, uri)
        }
    }

    /// Ask for the fixes of a diagnostic.
    pub fn code_actions(&mut self, uri: &str, diagnostic: &Diagnostic) -> (sent: (
        RequestId,
        Message,
    ))
        requires
            old(self)@.next_id < i32::MAX,
        ensures
            final(self)@ == requested(old(self)@),
            (sent.0@, sent.1@) == request_of(
                old(self)@,
                "textDocument/codeAction"@,
                code_action_json(uri@, diagnostic@),
            ),
    {
        self.request("textDocument/codeAction", code_action_value(uri, diagnostic))
    }
}

} // verus!
