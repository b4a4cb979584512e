use tw_lint::cli::{ClassRegex, LintConfig};
use tw_lint::fix::Rewrite;
use tw_lint::json::{Entry, Json};
use tw_lint::languages::Languages;
use tw_lint::lsp::client::{server_command_line, Client, Event, LaunchError};
use tw_lint::lsp::transport::{Message, Notification, Request, RequestId, Response};
use tw_lint::protocol::{Diagnostic, Position, PublishedDiagnostics, Range, TextEdit};
use tw_lint::session::{
    fix_source, gather_edits, language_id_for, Action, FileEdits, SourceError, SourceRun, Visit,
};
use tw_lint::settings::tailwind_settings;
use tw_lint::synthetic::Synthetic;

fn config() -> LintConfig {
    let mut languages = Languages::new();
    languages.insert("rust".to_string(), "html".to_string());
    LintConfig {
        root: "/p".into(),
        css: "tw.css".into(),
        sources: vec!["*.rs".into()],
        include_languages: languages,
        class_regexes: vec![
            ClassRegex::Simple("s".into()),
            ClassRegex::Container { container: "c".into(), class: "i".into() },
        ],
        server_command: "server".into(),
        node: None,
        fix: false,
        resolve: false,
    }
}

fn show(json: &Json) -> String {
    match json {
        Json::Null => "null".to_string(),
        Json::Bool(value) => value.to_string(),
        Json::Number(value) => value.clone(),
        Json::Text(value) => format!("'{value}'"),
        Json::Array(items) => {
            let shown: Vec<String> = items.iter().map(show).collect();
            format!("[{}]", shown.join(" "))
        }
        Json::Object(entries) => {
            let shown: Vec<String> =
                entries.iter().map(|e| format!("{}:{}", e.key, show(&e.value))).collect();
            format!("{{{}}}", shown.join(" "))
        }
    }
}

fn sent(message: &Message) -> String {
    match message {
        Message::Request(r) => format!("{:?} {} {}", r.id, r.method, show(&r.params)),
        Message::Response(r) => format!("{:?} {}", r.id, show(r.result.as_ref().unwrap())),
        Message::Notification(n) => format!("{} {}", n.method, show(&n.params)),
    }
}

fn object(entries: Vec<(&str, Json)>) -> Json {
    Json::Object(
        entries.into_iter().map(|(key, value)| Entry { key: key.to_string(), value }).collect(),
    )
}

fn client() -> Client<(), ()> {
    Client::launch(&config(), "/p", 7, (), ()).unwrap_or_else(|_| panic!("a session")).0
}

fn diagnostic(message: &str) -> Diagnostic {
    Diagnostic {
        range: Range::new(Position::new(1, 2), Position::new(3, 4)),
        severity: None,
        code: None,
        message: message.into(),
        sent: object(vec![("message", Json::text(message))]),
    }
}

fn published(uri: &str, messages: &[&str]) -> Option<PublishedDiagnostics> {
    Some(PublishedDiagnostics {
        uri: uri.to_string(),
        diagnostics: messages.iter().map(|m| diagnostic(m)).collect(),
    })
}

fn note(method: &str) -> Message {
    Message::Notification(Notification { method: method.into(), params: Json::Null })
}

fn response(id: i32, result: Option<Json>, error: Option<&str>) -> Message {
    Message::Response(Response {
        id: RequestId::Number(id),
        result,
        error: error.map(|e| e.to_string()),
    })
}

const LINTS: &str = "lint:{cssConflict:'warning' invalidApply:'error' invalidScreen:'error' invalidVariant:'error' invalidConfigPath:'error' invalidTailwindDirective:'error' recommendedVariantOrder:'warning'} validate:true}";
const FRONT: &str = "{includeLanguages:{rust:'html'} experimental:{classRegex:['s' ['c' 'i']] configFile:'tw.css'} ";

#[test]
fn the_settings_for_the_server() {
    assert_eq!(show(&tailwind_settings(&config())), format!("{FRONT}{LINTS}"));
}

#[test]
fn a_session_begins_with_initialize() {
    let (client, id, message) =
        Client::launch(&config(), "/p", 7, (), ()).unwrap_or_else(|_| panic!("a session"));
    assert!(id.same(&RequestId::Number(1)));
    assert_eq!(
        sent(&message),
        "Number(1) initialize {processId:7 rootUri:'file:///p/' capabilities:{workspace:{configuration:true didChangeConfiguration:{}} textDocument:{publishDiagnostics:{} codeAction:{codeActionLiteralSupport:{codeActionKind:{valueSet:['quickfix' 'source']}}}}} workspaceFolders:[{uri:'file:///p/' name:'root'}]}"
    );
    assert!(!client.pulls_diagnostics());
    let error = Client::launch(&config(), "p", 7, (), ()).err().unwrap();
    assert_eq!(error.message(), "root is not an absolute path: p");
    assert!(matches!(error, LaunchError::RelativeRoot(_)));
}

#[test]
fn the_server_is_started_alone_or_by_a_runtime() {
    let mut config = config();
    assert_eq!(server_command_line(&config), vec!["server", "--stdio"]);
    config.node = Some("node".to_string());
    assert_eq!(server_command_line(&config), vec!["node", "server", "--stdio"]);
}

#[test]
fn a_request_waits_for_its_own_response() {
    let mut client = client();
    let (id, message) = client.request("ping", Json::Bool(true));
    assert_eq!(sent(&message), "Number(2) ping true");
    let event = client.on_message(&id, "ping", response(1, None, None), None);
    assert!(matches!(event, Event::Wait));
    let event = client.on_message(&id, "ping", note("window/logMessage"), None);
    assert!(matches!(event, Event::Wait));
    match client.on_message(&id, "ping", response(2, None, Some("no")), None) {
        Event::Failed(error) => assert_eq!(error, "server error for ping: no"),
        other => panic!("expected a failure, got {other:?}"),
    }
    match client.on_message(&id, "ping", response(2, Some(Json::text("pong")), None), None) {
        Event::Answered(result) => assert_eq!(show(&result), "'pong'"),
        other => panic!("expected an answer, got {other:?}"),
    }
    match client.on_message(&id, "ping", response(2, None, None), None) {
        Event::Answered(result) => assert_eq!(show(&result), "null"),
        other => panic!("expected an answer, got {other:?}"),
    }
}

#[test]
fn the_server_gets_its_settings_when_it_asks() {
    let mut client = client();
    let pending = RequestId::Number(1);
    let items = Json::Array(vec![
        object(vec![("section", Json::text("editor"))]),
        object(vec![("scopeUri", Json::Null), ("section", Json::text("tailwindCSS"))]),
        Json::Null,
    ]);
    let request = Message::Request(Request {
        id: RequestId::Name("cfg".into()),
        method: "workspace/configuration".into(),
        params: object(vec![("items", items)]),
    });
    match client.on_message(&pending, "x", request, None) {
        Event::Reply(message) => assert_eq!(
            sent(&message),
            format!("Name(\"cfg\") [null {FRONT}{LINTS} null]")
        ),
        other => panic!("expected a reply, got {other:?}"),
    }
    let request = Message::Request(Request {
        id: RequestId::Number(9),
        method: "workspace/configuration".into(),
        params: Json::Null,
    });
    match client.on_message(&pending, "x", request, None) {
        Event::Reply(message) => assert_eq!(sent(&message), "Number(9) []"),
        other => panic!("expected a reply, got {other:?}"),
    }
    let request = Message::Request(Request {
        id: RequestId::Number(10),
        method: "client/registerCapability".into(),
        params: Json::Null,
    });
    match client.on_message(&pending, "x", request, None) {
        Event::Reply(message) => assert_eq!(sent(&message), "Number(10) null"),
        other => panic!("expected a reply, got {other:?}"),
    }
}

#[test]
fn published_diagnostics_are_collected_by_document() {
    let mut client = client();
    let id = RequestId::Number(1);
    let method = "textDocument/publishDiagnostics";
    client.on_message(&id, "x", note(method), published("file:///p/a", &["one", "two"]));
    client.on_message(&id, "x", note(method), published("file:///p/b", &["other"]));
    client.on_message(&id, "x", note(method), None);
    client.on_message(&id, "x", note("else"), published("file:///p/a", &["lost"]));
    client.on_message(&id, "x", note(method), published("file:///p/a", &["three"]));
    let (id, message) = client.ask_diagnostics("file:///p/a");
    assert!(id.same(&RequestId::Number(2)));
    assert_eq!(
        sent(&message),
        "Number(2) textDocument/documentColor {textDocument:{uri:'file:///p/a'}}"
    );
    let list = client.collect_diagnostics_for("file:///p/a", vec![diagnostic("pulled")]);
    let messages: Vec<&str> = list.iter().map(|d| d.message.as_str()).collect();
    assert_eq!(messages, vec!["one", "two", "three"]);
    assert!(client.take_diagnostics().is_empty());
}

#[test]
fn a_server_that_hands_out_diagnostics_is_asked_for_them() {
    let mut client = client();
    let provider = object(vec![("diagnosticProvider", object(vec![]))]);
    let message = client.on_initialized(&object(vec![("capabilities", provider)]));
    assert_eq!(sent(&message), "initialized {}");
    assert!(client.pulls_diagnostics());
    let (_, message) = client.ask_diagnostics("u");
    assert_eq!(sent(&message), "Number(2) textDocument/diagnostic {textDocument:{uri:'u'}}");
    let list = client.collect_diagnostics_for("u", vec![diagnostic("pulled")]);
    assert_eq!(list[0].message, "pulled");
    let method = "textDocument/publishDiagnostics";
    client.on_message(&RequestId::Number(9), "x", note(method), published("u", &["kept back"]));
    let list = client.collect_diagnostics_for("u", vec![]);
    assert!(list.is_empty());
    assert!(client.take_diagnostics().is_empty());
    let none = object(vec![("diagnosticProvider", Json::Null)]);
    client.on_initialized(&object(vec![("capabilities", none)]));
    assert!(!client.pulls_diagnostics());
    client.on_initialized(&Json::Null);
    assert!(!client.pulls_diagnostics());
}

#[test]
fn documents_and_fixes_and_the_end() {
    let mut client = client();
    assert_eq!(
        sent(&client.change_document("u", "t", 3)),
        "textDocument/didChange {textDocument:{uri:'u' version:3} contentChanges:[{text:'t'}]}"
    );
    assert_eq!(
        sent(&client.close_document("u")),
        "textDocument/didClose {textDocument:{uri:'u'}}"
    );
    let (_, message) = client.code_actions("u", &diagnostic("m"));
    assert_eq!(
        sent(&message),
        "Number(2) textDocument/codeAction {textDocument:{uri:'u'} range:{start:{line:1 character:2} end:{line:3 character:4}} context:{diagnostics:[{message:'m'}]}}"
    );
    let (id, message, exit) = client.shutdown();
    assert!(id.same(&RequestId::Number(3)));
    assert_eq!(sent(&message), "Number(3) shutdown null");
    assert_eq!(sent(&exit), "exit null");
    assert!(client.can_request());
}

#[test]
fn the_synthetic_document_is_reused() {
    let mut client = client();
    let (mut document, message) =
        Synthetic::open(&mut client, "/p").unwrap_or_else(|_| panic!("a document"));
    let uri = "file:///p/__twlint_synthetic.html";
    assert_eq!(document.uri, uri);
    assert_eq!(
        sent(&message),
        format!("textDocument/didOpen {{textDocument:{{uri:'{uri}' languageId:'html' version:1 text:''}}}}")
    );
    let (change, id, request) = document.diagnose(&mut client, "<div>");
    assert!(id.same(&RequestId::Number(2)));
    assert!(sent(&change).contains("version:2"));
    assert!(sent(&change).contains("text:'<div>'"));
    assert!(sent(&request).starts_with("Number(2) textDocument/documentColor"));
    let (change, _, _) = document.diagnose(&mut client, "<p>");
    assert!(sent(&change).contains("version:3"));
    assert_eq!(
        sent(&document.close(&mut client)),
        format!("textDocument/didClose {{textDocument:{{uri:'{uri}'}}}}")
    );
    let error = Synthetic::open(&mut client, "p").err().unwrap();
    assert_eq!(error.message(), "root is not absolute");
}

fn opened(path: &str, text: &str) -> Result<String, SourceError> {
    let begun = SourceRun::new().begin(&mut client(), &config(), path, text)?;
    Ok(sent(&begun.unwrap().0))
}

#[test]
fn a_source_is_opened_under_its_uri_and_language() {
    assert_eq!(
        opened("/p/src/my file.rs", "text").unwrap(),
        "textDocument/didOpen {textDocument:{uri:'file:///p/src/my%20file.rs' languageId:'rust' version:1 text:'text'}}"
    );
    let error = opened("src/a.rs", "").unwrap_err();
    assert!(matches!(error, SourceError::RelativePath(_)));
    assert_eq!(error.message(), "non-absolute path src/a.rs");
    assert!(opened("", "").is_err());
}

#[test]
fn the_uri_of_a_path_is_percent_encoded() {
    let uri = |path: &str| {
        let shown = opened(path, "").unwrap();
        let (_, rest) = shown.split_once("uri:'").unwrap();
        rest.split_once("' languageId:").unwrap().0.to_string()
    };
    assert_eq!(uri("/p/a.rs"), "file:///p/a.rs");
    assert_eq!(uri("/"), "file:///");
    assert_eq!(uri("/p//x/./y/"), "file:///p/x/y");
    assert_eq!(uri("/p/../é"), "file:///p/../%C3%A9");
    assert_eq!(uri("/p/a#b?c%d\\e"), "file:///p/a%23b%3Fc%25d%5Ce");
    assert_eq!(uri("/p/\"<>`{}\u{7f}\t"), "file:///p/%22%3C%3E%60%7B%7D%7F%09");
    assert_eq!(uri("/p/[a]:^|~!$&'()*+,;=@"), "file:///p/[a]:^|~!$&'()*+,;=@");
}

#[test]
fn a_visit_begins_under_a_given_uri() {
    let mut client = client();
    let (visit, open, _, request) =
        Visit::begin_at(&mut client, "/p/a.rs", "abc", "u:1".to_string(), "html");
    assert_eq!(visit.uri(), "u:1");
    assert_eq!(
        sent(&open),
        "textDocument/didOpen {textDocument:{uri:'u:1' languageId:'html' version:1 text:'abc'}}"
    );
    assert!(sent(&request).starts_with("Number(2) textDocument/documentColor"));
    assert!(sent(&request).contains("uri:'u:1'"));
}

#[test]
fn a_run_closes_a_source_before_it_opens_the_next() {
    let mut client = client();
    let mut run = SourceRun::new();
    assert!(run.close(&mut client).is_none());
    assert!(run.ask_fixes(&mut client).is_none());
    let error = run.begin(&mut client, &config(), "a.rs", "").err().unwrap();
    assert_eq!(error.message(), "non-absolute path a.rs");
    let (open, id, _) = run.begin(&mut client, &config(), "/p/a.rs", "abc").unwrap().unwrap();
    assert!(sent(&open).contains("uri:'file:///p/a.rs'"));
    assert!(run.begin(&mut client, &config(), "/p/b.rs", "").unwrap().is_none());
    let method = "textDocument/publishDiagnostics";
    client.on_message(&id, "x", note(method), published("file:///p/a.rs", &["one"]));
    run.collect(&mut client, vec![]);
    let (_, request) = run.ask_fixes(&mut client).unwrap();
    assert!(sent(&request).contains("diagnostics:[{message:'one'}]"));
    assert!(run.ask_fixes(&mut client).is_none());
    let edit = TextEdit {
        range: Range::new(Position::new(0, 0), Position::new(0, 1)),
        new_text: "X".to_string(),
    };
    run.on_actions(vec![Action::CodeAction(Some(vec![FileEdits {
        uri: "file:///p/a.rs".into(),
        edits: vec![edit],
    }]))]);
    let (close, diagnostics, rewrite) = run.close(&mut client).unwrap();
    assert_eq!(sent(&close), "textDocument/didClose {textDocument:{uri:'file:///p/a.rs'}}");
    assert_eq!(diagnostics.diagnostics.len(), 1);
    assert!(matches!(rewrite, Rewrite::Write(after) if after == "Xbc"));
    let (open, _, _) = run.begin(&mut client, &config(), "/p/b.rs", "").unwrap().unwrap();
    assert!(sent(&open).contains("uri:'file:///p/b.rs'"));
}

#[test]
fn a_visit_collects_and_fixes_a_source() {
    let mut client = client();
    let uri = "file:///p/a.rs".to_string();
    let (mut visit, open, id, request) =
        Visit::begin_at(&mut client, "/p/a.rs", "abc", uri, "rust");
    assert_eq!(visit.uri(), "file:///p/a.rs");
    assert!(sent(&open).starts_with("textDocument/didOpen"));
    assert!(sent(&request).starts_with("Number(2) textDocument/documentColor"));
    let method = "textDocument/publishDiagnostics";
    client.on_message(&id, "x", note(method), published("file:///p/a.rs", &["one", "two"]));
    visit.collect(&mut client, vec![]);
    let (_, request) = visit.ask_fixes(&mut client).unwrap();
    assert!(sent(&request).contains("diagnostics:[{message:'one'}]"));
    let edit = |start: u32, end: u32, text: &str| TextEdit {
        range: Range::new(Position::new(0, start), Position::new(0, end)),
        new_text: text.to_string(),
    };
    let offer = |edits: Vec<TextEdit>| {
        vec![Action::CodeAction(Some(vec![FileEdits { uri: "file:///p/a.rs".into(), edits }]))]
    };
    visit.on_actions(offer(vec![edit(0, 1, "XX")]));
    let (_, request) = visit.ask_fixes(&mut client).unwrap();
    assert!(sent(&request).contains("diagnostics:[{message:'two'}]"));
    visit.on_actions(offer(vec![edit(2, 3, "Z")]));
    assert!(visit.ask_fixes(&mut client).is_none());
    let (close, diagnostics, rewrite) = visit.close(&mut client);
    assert_eq!(sent(&close), "textDocument/didClose {textDocument:{uri:'file:///p/a.rs'}}");
    assert_eq!(diagnostics.path, "/p/a.rs");
    assert_eq!(diagnostics.diagnostics.len(), 2);
    match rewrite {
        Rewrite::Write(after) => assert_eq!(after, "XXbZ"),
        other => panic!("expected a rewrite, got {other:?}"),
    }
}

#[test]
fn the_language_of_a_source() {
    let mut config = config();
    assert_eq!(language_id_for(&config, "/p/a.rs"), "rust");
    assert_eq!(language_id_for(&config, "/p/a.test.tsx"), "tsx");
    assert_eq!(language_id_for(&config, "/p/Makefile"), "");
    assert_eq!(language_id_for(&config, "/p/.hidden"), "");
    assert_eq!(language_id_for(&config, "/x.d/Makefile"), "");
    assert_eq!(language_id_for(&config, ".rs"), "");
    assert_eq!(language_id_for(&config, "/p/..rs"), "rust");
    assert_eq!(language_id_for(&config, "/p/a."), "");
    assert_eq!(language_id_for(&config, "/p/.."), "");
    config.include_languages = Languages::new();
    assert_eq!(language_id_for(&config, "/p/a.rs"), "rs");
}

#[test]
fn the_edits_of_all_actions_are_made_in_one_batch() {
    let edit = |start: u32, end: u32, text: &str| TextEdit {
        range: Range::new(Position::new(0, start), Position::new(0, end)),
        new_text: text.to_string(),
    };
    let file = |uri: &str, edits: Vec<TextEdit>| FileEdits { uri: uri.to_string(), edits };
    let mut edits = Vec::new();
    gather_edits(
        &mut edits,
        vec![
            Action::Command,
            Action::CodeAction(None),
            Action::CodeAction(Some(vec![
                file("b", vec![edit(0, 9, "lost")]),
                file("a", vec![edit(0, 1, "X")]),
            ])),
        ],
        "a",
    );
    gather_edits(
        &mut edits,
        vec![Action::CodeAction(Some(vec![file("a", vec![edit(2, 3, "ZZ")])]))],
        "a",
    );
    assert_eq!(edits.len(), 2);
    match fix_source("abc", &edits) {
        Rewrite::Write(after) => assert_eq!(after, "XbZZ"),
        other => panic!("expected a rewrite, got {other:?}"),
    }
    assert!(matches!(fix_source("abc", &[]), Rewrite::Keep));
    assert!(matches!(fix_source("a", &edits), Rewrite::Misfit));
}
