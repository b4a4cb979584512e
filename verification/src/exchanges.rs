//! What is asked of the language server and what is made of its answers, and what
//! a run is configured with.
use crate::cli::{
    bad_language, chosen_root, chosen_server, flag_or_file, flags_or_file, language_map,
    scoped_view, simple_views, ClassRegexView,
};
use crate::document::document_of;
use crate::edits::{edited, TextEditView};
use crate::fix::RewriteView;
use crate::groups::GroupView;
use crate::json::{field, key_position, value_at, EntryView, JsonView};
use crate::lsp::client::{
    absorbed, advertises_pull, answer_to, change_json, code_action_json, collected, command_line,
    diagnostics_request, document_json, event_of, initialize_params, object, open_json,
    position_json, published_for, range_json, request_of, requested, ClientView, EventView,
};
use crate::lsp::transport::{
    MessageView, NotificationView, RequestIdView, RequestView, ResponseView,
};
use crate::protocol::{DiagnosticView, PublishedView};
use crate::session::{
    action_edits, actions_edits, edits_in, edits_rewrite, language_id, ActionView, FileEditsView,
};
use crate::settings::settings_json;
use crate::sweep::{
    fresh_sweep, sweep_ended, sweep_next, sweep_step, sweep_with, StepView, SweepView,
};
use crate::text::{decimal, split_once_at, strings, text_of};
use crate::wording::law_split_once;
use vstd::prelude::*;
use vstd::string::*;

verus! {

proof fn lemma_key_position(entries: Seq<EntryView>, key: Seq<char>, i: int)
    requires
        0 <= i <= entries.len(),
        forall|j: int| 0 <= j < i ==> (#[trigger] entries[j]).key != key,
        i < entries.len() ==> entries[i].key == key,
    ensures
        key_position(entries, key) == i,
    decreases i,
{
    if i > 0 {
        let rest = entries.drop_first();
        assert(entries[0].key != key);
        assert forall|j: int| 0 <= j < i - 1 implies (#[trigger] rest[j]).key != key by {
            assert(rest[j] == entries[j + 1]);
        }
        lemma_key_position(rest, key, i - 1);
    }
}

/// A key of an object has the value of its first entry, and none where it has no
/// entry.
pub proof fn law_lookup(
    front: Seq<EntryView>,
    key: Seq<char>,
    value: JsonView,
    back: Seq<EntryView>,
)
    requires
        forall|j: int| 0 <= j < front.len() ==> (#[trigger] front[j]).key != key,
    ensures
        value_at(JsonView::Object(front + seq![EntryView { key, value }] + back), key) == Some(
            value,
        ),
        value_at(JsonView::Object(front), key) is None,
{
    let entries = front + seq![EntryView { key, value }] + back;
    let n = front.len() as int;
    assert forall|j: int| 0 <= j < n implies (#[trigger] entries[j]).key != key by {
        assert(entries[j] == front[j]);
    }
    lemma_key_position(entries, key, n);
    lemma_key_position(front, key, n);
}

/// The value of a key of an object that has it, in an object that has that.
pub open spec fn value_below(json: JsonView, outer: Seq<char>, key: Seq<char>) -> Option<JsonView> {
    match value_at(json, outer) {
        Some(inner) => value_at(inner, key),
        None => None,
    }
}

proof fn lemma_entry(entries: Seq<EntryView>, i: int)
    requires
        0 <= i < entries.len(),
        forall|j: int| 0 <= j < i ==> (#[trigger] entries[j]).key != entries[i].key,
    ensures
        value_at(object(entries), entries[i].key) == Some(entries[i].value),
{
    lemma_key_position(entries, entries[i].key, i);
}

/// The message that opens a document names it, its language and its text.
pub proof fn law_open_message(uri: Seq<char>, language: Seq<char>, text: Seq<char>)
    ensures
        ({
            let json = open_json(uri, language, text);
            &&& value_below(json, "textDocument"@, "uri"@) == Some(JsonView::Text(uri))
            &&& value_below(json, "textDocument"@, "languageId"@) == Some(JsonView::Text(language))
            &&& value_below(json, "textDocument"@, "version"@) == Some(JsonView::Number(decimal(1)))
            &&& value_below(json, "textDocument"@, "text"@) == Some(JsonView::Text(text))
        }),
{
    reveal_strlit("uri");
    reveal_strlit("languageId");
    reveal_strlit("version");
    reveal_strlit("text");
    let inner = seq![
        field("uri"@, JsonView::Text(uri)),
        field("languageId"@, JsonView::Text(language)),
        field("version"@, JsonView::Number(decimal(1))),
        field("text"@, JsonView::Text(text)),
    ];
    assert("uri"@.len() == 3 && "languageId"@.len() == 10 && "version"@.len() == 7 && "text"@.len()
        == 4);
    lemma_entry(inner, 0);
    lemma_entry(inner, 1);
    lemma_entry(inner, 2);
    lemma_entry(inner, 3);
    lemma_entry(seq![field("textDocument"@, object(inner))], 0);
}

/// The message that changes a document names it, its version and its whole text.
pub proof fn law_change_message(uri: Seq<char>, version: nat, text: Seq<char>)
    ensures
        ({
            let json = change_json(uri, version, text);
            &&& value_below(json, "textDocument"@, "uri"@) == Some(JsonView::Text(uri))
            &&& value_below(json, "textDocument"@, "version"@) == Some(
                JsonView::Number(decimal(version)),
            )
            &&& value_at(json, "contentChanges"@) matches Some(JsonView::Array(changes))
                && changes.len() == 1 && value_at(changes[0], "text"@) == Some(JsonView::Text(text))
        }),
{
    reveal_strlit("uri");
    reveal_strlit("version");
    reveal_strlit("textDocument");
    reveal_strlit("contentChanges");
    let inner = seq![
        field("uri"@, JsonView::Text(uri)),
        field("version"@, JsonView::Number(decimal(version))),
    ];
    assert("uri"@.len() == 3 && "version"@.len() == 7 && "textDocument"@.len() == 12
        && "contentChanges"@.len() == 14);
    lemma_entry(inner, 0);
    lemma_entry(inner, 1);
    let change = seq![field("text"@, JsonView::Text(text))];
    lemma_entry(change, 0);
    let outer = seq![
        field("textDocument"@, object(inner)),
        field("contentChanges"@, JsonView::Array(seq![object(change)])),
    ];
    lemma_entry(outer, 0);
    lemma_entry(outer, 1);
}

/// The messages that close a document or ask for its diagnostics name it.
pub proof fn law_document_message(uri: Seq<char>)
    ensures
        value_below(document_json(uri), "textDocument"@, "uri"@) == Some(JsonView::Text(uri)),
{
    let inner = seq![field("uri"@, JsonView::Text(uri))];
    lemma_entry(inner, 0);
    lemma_entry(seq![field("textDocument"@, object(inner))], 0);
}

proof fn lemma_position_message(position: crate::protocol::Position)
    ensures
        value_at(position_json(position), "line"@) == Some(
            JsonView::Number(decimal(position.line as nat)),
        ),
        value_at(position_json(position), "character"@) == Some(
            JsonView::Number(decimal(position.character as nat)),
        ),
{
    reveal_strlit("line");
    reveal_strlit("character");
    let inner = seq![
        field("line"@, JsonView::Number(decimal(position.line as nat))),
        field("character"@, JsonView::Number(decimal(position.character as nat))),
    ];
    assert("line"@.len() == 4 && "character"@.len() == 9);
    lemma_entry(inner, 0);
    lemma_entry(inner, 1);
}

/// The fixes are asked for of the document, at the range of the diagnostic, and with
/// the diagnostic alone, as the server sent it.
pub proof fn law_fixes_are_asked_for(uri: Seq<char>, diagnostic: DiagnosticView)
    ensures
        ({
            let json = code_action_json(uri, diagnostic);
            &&& value_below(json, "textDocument"@, "uri"@) == Some(JsonView::Text(uri))
            &&& value_below(json, "context"@, "diagnostics"@) == Some(
                JsonView::Array(seq![diagnostic.sent]),
            )
            &&& value_at(json, "range"@) matches Some(range) && {
                &&& value_below(range, "start"@, "line"@) == Some(
                    JsonView::Number(decimal(diagnostic.range.start.line as nat)),
                )
                &&& value_below(range, "start"@, "character"@) == Some(
                    JsonView::Number(decimal(diagnostic.range.start.character as nat)),
                )
                &&& value_below(range, "end"@, "line"@) == Some(
                    JsonView::Number(decimal(diagnostic.range.end.line as nat)),
                )
                &&& value_below(range, "end"@, "character"@) == Some(
                    JsonView::Number(decimal(diagnostic.range.end.character as nat)),
                )
            }
        }),
{
    reveal_strlit("textDocument");
    reveal_strlit("range");
    reveal_strlit("context");
    reveal_strlit("start");
    reveal_strlit("end");
    let range = diagnostic.range;
    lemma_position_message(range.start);
    lemma_position_message(range.end);
    let ends = seq![
        field("start"@, position_json(range.start)),
        field("end"@, position_json(range.end)),
    ];
    assert("textDocument"@.len() == 12 && "range"@.len() == 5 && "context"@.len() == 7
        && "start"@.len() == 5 && "end"@.len() == 3);
    lemma_entry(ends, 0);
    lemma_entry(ends, 1);
    let document = seq![field("uri"@, JsonView::Text(uri))];
    lemma_entry(document, 0);
    let context = seq![field("diagnostics"@, JsonView::Array(seq![diagnostic.sent]))];
    lemma_entry(context, 0);
    let outer = seq![
        field("textDocument"@, object(document)),
        field("range"@, range_json(range)),
        field("context"@, object(context)),
    ];
    lemma_entry(outer, 0);
    lemma_entry(outer, 1);
    lemma_entry(outer, 2);
}

/// The settings name the entry stylesheet, each language and each pattern, in their
/// order, and have the server validate.
pub proof fn law_settings(
    pairs: Seq<(Seq<char>, Seq<char>)>,
    regexes: Seq<ClassRegexView>,
    css: Seq<char>,
    i: int,
    k: int,
)
    ensures
        ({
            let json = settings_json(pairs, regexes, css);
            &&& value_below(json, "experimental"@, "configFile"@) == Some(JsonView::Text(css))
            &&& value_at(json, "validate"@) == Some(JsonView::Bool(true))
            &&& value_below(json, "lint"@, "cssConflict"@) == Some(JsonView::Text("warning"@))
            &&& value_below(json, "lint"@, "recommendedVariantOrder"@) == Some(
                JsonView::Text("warning"@),
            )
            &&& value_below(json, "lint"@, "invalidApply"@) == Some(JsonView::Text("error"@))
            &&& value_below(json, "lint"@, "invalidScreen"@) == Some(JsonView::Text("error"@))
            &&& value_below(json, "lint"@, "invalidVariant"@) == Some(JsonView::Text("error"@))
            &&& value_below(json, "lint"@, "invalidConfigPath"@) == Some(JsonView::Text("error"@))
            &&& value_below(json, "lint"@, "invalidTailwindDirective"@) == Some(
                JsonView::Text("error"@),
            )
            &&& value_at(json, "includeLanguages"@) matches Some(JsonView::Object(entries)) && {
                &&& entries.len() == pairs.len()
                &&& 0 <= i < pairs.len() ==> entries[i].key == pairs[i].0 && entries[i].value
                    == JsonView::Text(pairs[i].1)
            }
            &&& value_below(json, "experimental"@, "classRegex"@) matches Some(
                JsonView::Array(patterns),
            ) && {
                &&& patterns.len() == regexes.len()
                &&& 0 <= k < regexes.len() ==> match regexes[k] {
                    ClassRegexView::Simple(pattern) => patterns[k] == JsonView::Text(pattern),
                    ClassRegexView::Container { container, class } => patterns[k]
                        == JsonView::Array(
                        seq![JsonView::Text(container), JsonView::Text(class)],
                    ),
                }
            }
        }),
{
    reveal_strlit("includeLanguages");
    reveal_strlit("experimental");
    reveal_strlit("lint");
    reveal_strlit("validate");
    reveal_strlit("classRegex");
    reveal_strlit("configFile");
    reveal_strlit("cssConflict");
    reveal_strlit("invalidApply");
    reveal_strlit("invalidScreen");
    reveal_strlit("invalidVariant");
    reveal_strlit("invalidConfigPath");
    reveal_strlit("invalidTailwindDirective");
    reveal_strlit("recommendedVariantOrder");
    assert("classRegex"@[1] != "configFile"@[1]);
    let lint = seq![
        field("cssConflict"@, JsonView::Text("warning"@)),
        field("invalidApply"@, JsonView::Text("error"@)),
        field("invalidScreen"@, JsonView::Text("error"@)),
        field("invalidVariant"@, JsonView::Text("error"@)),
        field("invalidConfigPath"@, JsonView::Text("error"@)),
        field("invalidTailwindDirective"@, JsonView::Text("error"@)),
        field("recommendedVariantOrder"@, JsonView::Text("warning"@)),
    ];
    assert("cssConflict"@.len() == 11 && "invalidApply"@.len() == 12
        && "invalidScreen"@.len() == 13 && "invalidVariant"@.len() == 14
        && "invalidConfigPath"@.len() == 17 && "invalidTailwindDirective"@.len() == 24
        && "recommendedVariantOrder"@.len() == 23);
    lemma_entry(lint, 0);
    lemma_entry(lint, 1);
    lemma_entry(lint, 2);
    lemma_entry(lint, 3);
    lemma_entry(lint, 4);
    lemma_entry(lint, 5);
    lemma_entry(lint, 6);
    let experimental = seq![
        field("classRegex"@, crate::settings::regexes_json(regexes)),
        field("configFile"@, JsonView::Text(css)),
    ];
    lemma_entry(experimental, 0);
    lemma_entry(experimental, 1);
    assert("includeLanguages"@.len() == 16 && "experimental"@.len() == 12 && "lint"@.len() == 4
        && "validate"@.len() == 8);
    let outer = seq![
        field("includeLanguages"@, crate::settings::languages_json(pairs)),
        field("experimental"@, object(experimental)),
        field("lint"@, object(lint)),
        field("validate"@, JsonView::Bool(true)),
    ];
    lemma_entry(outer, 0);
    lemma_entry(outer, 1);
    lemma_entry(outer, 2);
    lemma_entry(outer, 3);
}

/// The first request names the process and the root.
pub proof fn law_first_request(process: u32, uri: Seq<char>)
    ensures
        ({
            let json = initialize_params(process, uri);
            &&& value_at(json, "processId"@) == Some(JsonView::Number(decimal(process as nat)))
            &&& value_at(json, "rootUri"@) == Some(JsonView::Text(uri))
            &&& value_at(json, "workspaceFolders"@) matches Some(JsonView::Array(folders))
                && folders.len() == 1 && value_at(folders[0], "uri"@) == Some(JsonView::Text(uri))
            &&& value_at(json, "capabilities"@) matches Some(capable) && value_below(
                capable,
                "workspace"@,
                "configuration"@,
            ) == Some(JsonView::Bool(true))
        }),
{
    reveal_strlit("processId");
    reveal_strlit("rootUri");
    reveal_strlit("capabilities");
    reveal_strlit("workspaceFolders");
    reveal_strlit("uri");
    reveal_strlit("name");
    let folder = seq![
        field("uri"@, JsonView::Text(uri)),
        field("name"@, JsonView::Text("root"@)),
    ];
    lemma_entry(folder, 0);
    assert("processId"@.len() == 9 && "rootUri"@.len() == 7 && "capabilities"@.len() == 12
        && "workspaceFolders"@.len() == 16);
    let outer = seq![
        field("processId"@, JsonView::Number(decimal(process as nat))),
        field("rootUri"@, JsonView::Text(uri)),
        field("capabilities"@, crate::lsp::client::capabilities()),
        field("workspaceFolders"@, JsonView::Array(seq![object(folder)])),
    ];
    lemma_entry(outer, 0);
    lemma_entry(outer, 1);
    lemma_entry(outer, 2);
    lemma_entry(outer, 3);
    let workspace = seq![
        field("configuration"@, JsonView::Bool(true)),
        field("didChangeConfiguration"@, object(Seq::empty())),
    ];
    lemma_entry(workspace, 0);
    let capable = seq![
        field("workspace"@, object(workspace)),
        field(
            "textDocument"@,
            object(
                seq![
                    field("publishDiagnostics"@, object(Seq::empty())),
                    field("codeAction"@, crate::lsp::client::code_action_support()),
                ],
            ),
        ),
    ];
    lemma_entry(capable, 0);
}

/// The server is started by its command, or by the runtime with the command behind
/// it, and talks over its standard streams.
pub proof fn law_command_line(server: Seq<char>, node: Seq<char>)
    ensures
        command_line(server, None) == seq![server, "--stdio"@],
        command_line(server, Some(node)) == seq![node] + command_line(server, None),
{
    assert(command_line(server, Some(node)) =~= seq![node] + command_line(server, None));
}

/// A request for configuration is answered item by item, in their order: with the
/// settings where the section of Tailwind is asked for, and with nothing else where
/// another is. Other requests of the server are answered with nothing.
pub proof fn law_configuration(
    params: JsonView,
    items: Seq<JsonView>,
    id: RequestIdView,
    method: Seq<char>,
    settings: JsonView,
    i: int,
)
    requires
        value_at(params, "items"@) == Some(JsonView::Array(items)),
    ensures
        answer_to(
            RequestView { id, method: "workspace/configuration"@, params },
            settings,
        ) matches JsonView::Array(answers) && answers.len() == items.len() && (0 <= i < items.len()
            ==> answers[i] == if value_at(items[i], "section"@) == Some(
            JsonView::Text("tailwindCSS"@),
        ) {
            settings
        } else {
            JsonView::Null
        }),
        method != "workspace/configuration"@ ==> answer_to(
            RequestView { id, method, params },
            settings,
        ) == JsonView::Null,
{
}

/// A message ends the wait for an answer where it is the answer: with its result, or
/// with what failed. A request of the server is answered under its own number.
pub proof fn law_answers(
    pending: RequestIdView,
    id: RequestIdView,
    method: Seq<char>,
    asked: Seq<char>,
    json: JsonView,
    failure: Seq<char>,
    settings: JsonView,
)
    ensures
        event_of(
            pending,
            method,
            MessageView::Response(ResponseView { id: pending, result: Some(json), error: None }),
            settings,
        ) == EventView::Answered(json),
        event_of(
            pending,
            method,
            MessageView::Response(ResponseView { id: pending, result: None, error: None }),
            settings,
        ) == EventView::Answered(JsonView::Null),
        event_of(
            pending,
            method,
            MessageView::Response(
                ResponseView { id: pending, result: None, error: Some(failure) },
            ),
            settings,
        ) == EventView::Failed("server error for "@ + method + ": "@ + failure),
        id != pending ==> event_of(
            pending,
            method,
            MessageView::Response(ResponseView { id, result: Some(json), error: None }),
            settings,
        ) is Wait,
        id != pending ==> event_of(
            pending,
            method,
            MessageView::Response(ResponseView { id, result: None, error: Some(failure) }),
            settings,
        ) is Wait,
        event_of(
            pending,
            method,
            MessageView::Notification(NotificationView { method: asked, params: json }),
            settings,
        ) is Wait,
        event_of(
            pending,
            method,
            MessageView::Request(RequestView { id, method: asked, params: json }),
            settings,
        ) == EventView::Reply(
            MessageView::Response(
                ResponseView {
                    id,
                    result: Some(
                        answer_to(RequestView { id, method: asked, params: json }, settings),
                    ),
                    error: None,
                },
            ),
        ),
{
}

/// No two requests have the same number, however many lie between them.
pub proof fn law_numbers_differ<R, W>(
    first: ClientView<R, W>,
    later: ClientView<R, W>,
    one: Seq<char>,
    other: Seq<char>,
    params: JsonView,
)
    requires
        first.next_id < i32::MAX,
        later.next_id < i32::MAX,
        later.next_id >= requested(first).next_id,
    ensures
        request_of(first, one, params).0 != request_of(later, other, params).0,
        requested(later).next_id > later.next_id,
        request_of(first, one, params).1 == MessageView::Request(
            RequestView { id: request_of(first, one, params).0, method: one, params },
        ),
{
}

/// Diagnostics are asked for where the server offers them, and else a request is sent
/// that it answers once it has published them.
pub proof fn law_how_diagnostics_are_asked_for<R, W>(client: ClientView<R, W>, uri: Seq<char>)
    ensures
        client.pulls ==> diagnostics_request(client, uri) == request_of(
            client,
            "textDocument/diagnostic"@,
            document_json(uri),
        ),
        !client.pulls ==> diagnostics_request(client, uri) == request_of(
            client,
            "textDocument/documentColor"@,
            document_json(uri),
        ),
{
}

/// A server offers diagnostics where its capabilities have a provider of them.
pub proof fn law_what_a_server_offers(
    front: Seq<EntryView>,
    before: Seq<EntryView>,
    provider: JsonView,
    after: Seq<EntryView>,
    back: Seq<EntryView>,
)
    requires
        forall|j: int| 0 <= j < front.len() ==> (#[trigger] front[j]).key != "capabilities"@,
        forall|j: int|
            0 <= j < before.len() ==> (#[trigger] before[j]).key != "diagnosticProvider"@,
    ensures
        ({
            let capable = JsonView::Object(
                before + seq![EntryView { key: "diagnosticProvider"@, value: provider }] + after,
            );
            advertises_pull(
                JsonView::Object(
                    front + seq![EntryView { key: "capabilities"@, value: capable }] + back,
                ),
            ) <==> provider != JsonView::Null
        }),
        !advertises_pull(
            JsonView::Object(
                front + seq![
                    EntryView { key: "capabilities"@, value: JsonView::Object(before) },
                ] + back,
            ),
        ),
        !advertises_pull(JsonView::Object(front)),
{
    let capable = JsonView::Object(
        before + seq![EntryView { key: "diagnosticProvider"@, value: provider }] + after,
    );
    law_lookup(before, "diagnosticProvider"@, provider, after);
    law_lookup(front, "capabilities"@, capable, back);
    law_lookup(front, "capabilities"@, JsonView::Object(before), back);
}

/// All that was published for a document counts, in the order in which it came, and
/// nothing that was published for another.
pub proof fn law_published(
    a: Seq<PublishedView>,
    b: Seq<PublishedView>,
    one: PublishedView,
    uri: Seq<char>,
)
    ensures
        published_for(a + b, uri) == published_for(a, uri) + published_for(b, uri),
        published_for(seq![one], uri) == if one.uri == uri {
            one.diagnostics
        } else {
            Seq::empty()
        },
    decreases b.len(),
{
    let list = seq![one];
    assert(list.drop_last() =~= Seq::empty());
    assert(published_for(list.drop_last(), uri) =~= Seq::empty());
    assert(published_for(list, uri) =~= if one.uri == uri {
        one.diagnostics
    } else {
        Seq::empty()
    });
    if b.len() == 0 {
        assert(a + b =~= a);
        assert(published_for(a, uri) + published_for(b, uri) =~= published_for(a, uri));
    } else {
        assert((a + b).drop_last() =~= a + b.drop_last());
        law_published(a, b.drop_last(), one, uri);
        assert(published_for(a + b, uri) =~= published_for(a, uri) + published_for(b, uri));
    }
}

/// What the server publishes is kept until it is collected, and what it hands out on
/// request is taken as it is.
pub proof fn law_collected<R, W>(
    client: ClientView<R, W>,
    uri: Seq<char>,
    pulled: Seq<DiagnosticView>,
    more: PublishedView,
    params: JsonView,
)
    ensures
        client.pulls ==> collected(client, uri, pulled) == pulled,
        !client.pulls ==> collected(client, uri, pulled) == published_for(client.diagnostics, uri),
        absorbed(
            client.diagnostics,
            MessageView::Notification(
                NotificationView { method: "textDocument/publishDiagnostics"@, params },
            ),
            Some(more),
        ) == client.diagnostics + seq![more],
{
    assert(client.diagnostics.push(more) =~= client.diagnostics + seq![more]);
}

/// The edits of some actions are those of each, one action after the other: of a code
/// action, those for the document alone, and of a command, none.
pub proof fn law_edits_of_actions(
    a: Seq<ActionView>,
    b: Seq<ActionView>,
    front: Seq<FileEditsView>,
    edits: Seq<TextEditView>,
    back: Seq<FileEditsView>,
    uri: Seq<char>,
)
    requires
        forall|i: int| 0 <= i < front.len() ==> (#[trigger] front[i]).uri != uri,
    ensures
        actions_edits(a + b, uri) == actions_edits(a, uri) + actions_edits(b, uri),
        actions_edits(seq![ActionView::Command], uri) == Seq::<TextEditView>::empty(),
        actions_edits(seq![ActionView::CodeAction(None)], uri) == Seq::<TextEditView>::empty(),
        actions_edits(seq![ActionView::CodeAction(Some(front))], uri) == Seq::<
            TextEditView,
        >::empty(),
        actions_edits(
            seq![
                ActionView::CodeAction(
                    Some(front + seq![FileEditsView { uri, edits }] + back),
                ),
            ],
            uri,
        ) == edits,
    decreases b.len(),
{
    lemma_one_action(ActionView::Command, uri);
    lemma_one_action(ActionView::CodeAction(None), uri);
    lemma_one_action(ActionView::CodeAction(Some(front)), uri);
    lemma_one_action(
        ActionView::CodeAction(Some(front + seq![FileEditsView { uri, edits }] + back)),
        uri,
    );
    lemma_edits_in(front, edits, back, uri);
    if b.len() == 0 {
        assert(a + b =~= a);
        assert(actions_edits(a, uri) + actions_edits(b, uri) =~= actions_edits(a, uri));
    } else {
        assert((a + b).drop_last() =~= a + b.drop_last());
        law_edits_of_actions(a, b.drop_last(), front, edits, back, uri);
        assert(actions_edits(a + b, uri) =~= actions_edits(a, uri) + actions_edits(b, uri));
    }
}

proof fn lemma_one_action(action: ActionView, uri: Seq<char>)
    ensures
        actions_edits(seq![action], uri) == action_edits(action, uri),
{
    let one = seq![action];
    assert(one.drop_last() =~= Seq::empty());
    assert(actions_edits(one.drop_last(), uri) =~= Seq::empty());
    assert(actions_edits(one, uri) =~= action_edits(action, uri));
}

proof fn lemma_edits_in(
    front: Seq<FileEditsView>,
    edits: Seq<TextEditView>,
    back: Seq<FileEditsView>,
    uri: Seq<char>,
)
    requires
        forall|i: int| 0 <= i < front.len() ==> (#[trigger] front[i]).uri != uri,
    ensures
        edits_in(front, uri) == Seq::<TextEditView>::empty(),
        edits_in(front + seq![FileEditsView { uri, edits }] + back, uri) == edits,
    decreases front.len(),
{
    let whole = front + seq![FileEditsView { uri, edits }] + back;
    if front.len() > 0 {
        let rest = front.drop_first();
        assert(whole[0] == front[0]);
        assert(whole.drop_first() =~= rest + seq![FileEditsView { uri, edits }] + back);
        assert forall|i: int| 0 <= i < rest.len() implies (#[trigger] rest[i]).uri != uri by {
            assert(rest[i] == front[i + 1]);
        }
        lemma_edits_in(rest, edits, back, uri);
    } else {
        assert(whole[0] == FileEditsView { uri, edits });
    }
}

/// A source is kept where no edits were gathered, and else written as they make it.
pub proof fn law_source_rewrite(bytes: Seq<u8>, edits: Seq<TextEditView>)
    ensures
        edits.len() == 0 ==> edits_rewrite(bytes, edits) is Keep,
        edits.len() > 0 && edited(bytes, edits) is Some ==> edits_rewrite(bytes, edits)
            == RewriteView::Write(edited(bytes, edits)->0),
        edits.len() > 0 && edited(bytes, edits) is None ==> edits_rewrite(bytes, edits) is Misfit,
{
}

/// The language of a source is its extension, but for a source of Rust where the
/// languages name that.
pub proof fn law_language(extension: Seq<char>, languages: Map<Seq<char>, Seq<char>>)
    ensures
        extension != "rs"@ ==> language_id(Some(extension), languages) == extension,
        languages.dom().contains("rust"@) ==> language_id(Some("rs"@), languages) == "rust"@,
        !languages.dom().contains("rust"@) ==> language_id(Some("rs"@), languages) == "rs"@,
        language_id(None, languages) == Seq::<char>::empty(),
{
}

/// A flag goes before the file, and flags that may be given more than once go before
/// it together.
pub proof fn law_flags_go_first(
    flag: String,
    file: Option<String>,
    flags: Seq<String>,
    listed: Seq<String>,
)
    ensures
        flag_or_file(Some(flag), file) == Some(flag@),
        flag_or_file(None, file) == text_of(file),
        flags.len() > 0 ==> flags_or_file(flags, listed) == strings(flags),
        flags_or_file(Seq::empty(), listed) == strings(listed),
{
}

/// A root and a server that are named are taken. Else the root is where the run was
/// started, and the server what the environment names, or goes by its own name.
pub proof fn law_what_is_chosen(named: Seq<char>, env: Option<Seq<char>>, other: Seq<char>)
    ensures
        chosen_root(Some(named)) == named,
        chosen_root(None) == "."@,
        chosen_server(Some(named), env) == named,
        chosen_server(None, Some(other)) == other,
        chosen_server(None, None) == "tailwindcss-language-server"@,
{
}

/// Of the languages, the last entry for a name holds, and what stands behind the
/// first equals sign is what it is served as.
pub proof fn law_languages(
    a: Seq<Seq<char>>,
    b: Seq<Seq<char>>,
    name: Seq<char>,
    served: Seq<char>,
)
    requires
        !name.contains('='),
    ensures
        language_map(a + b) == language_map(a).union_prefer_right(language_map(b)),
        language_map(seq![name + seq!['='] + served]) == map![name => served],
        language_map(Seq::empty()) == Map::<Seq<char>, Seq<char>>::empty(),
    decreases b.len(),
{
    law_split_once(name, '=', served);
    let one = seq![name + seq!['='] + served];
    assert(one.drop_last() =~= Seq::empty());
    assert(language_map(one.drop_last()) =~= Map::empty());
    assert(language_map(one) =~= map![name => served]);
    if b.len() == 0 {
        assert(a + b =~= a);
        assert(language_map(a).union_prefer_right(language_map(b)) =~= language_map(a));
    } else {
        assert((a + b).drop_last() =~= a + b.drop_last());
        law_languages(a, b.drop_last(), name, served);
        assert(language_map(a + b) =~= language_map(a).union_prefer_right(language_map(b)));
    }
}

/// The first entry without an equals sign is refused, and none where each has one.
pub proof fn law_bad_language(front: Seq<Seq<char>>, bad: Seq<char>, back: Seq<Seq<char>>)
    requires
        forall|i: int| 0 <= i < front.len() ==> (#[trigger] front[i]).contains('='),
        !bad.contains('='),
    ensures
        bad_language(front + seq![bad] + back) == Some(bad),
        bad_language(front) is None,
    decreases front.len(),
{
    let whole = front + seq![bad] + back;
    law_split_once(bad, '=', Seq::empty());
    if front.len() > 0 {
        let rest = front.drop_first();
        assert(whole[0] == front[0]);
        assert(whole.drop_first() =~= rest + seq![bad] + back);
        assert forall|i: int| 0 <= i < rest.len() implies (#[trigger] rest[i]).contains('=') by {
            assert(rest[i] == front[i + 1]);
        }
        law_bad_language(rest, bad, back);
        lemma_splits(front[0]);
    } else {
        assert(whole[0] == bad);
    }
}

proof fn lemma_splits(entry: Seq<char>)
    requires
        entry.contains('='),
    ensures
        split_once_at(entry, '=') is Some,
{
    if crate::text::first_position(entry, '=') as int >= entry.len() {
        let k = choose|k: int| 0 <= k < entry.len() && entry[k] == '=';
        lemma_first_upto(entry, k);
    }
}

proof fn lemma_first_upto(entry: Seq<char>, k: int)
    requires
        0 <= k < entry.len(),
        entry[k] == '=',
    ensures
        crate::text::first_position(entry, '=') <= k,
    decreases entry.len(),
{
    if k > 0 && entry[0] != '=' {
        lemma_first_upto(entry.drop_first(), k - 1);
    }
}

/// A pattern is held as it is given, and with a container it is the class pattern in
/// that container.
pub proof fn law_patterns(patterns: Seq<Seq<char>>, container: Seq<char>, other: Seq<char>, i: int)
    requires
        0 <= i < patterns.len(),
    ensures
        simple_views(patterns).len() == patterns.len(),
        simple_views(patterns)[i] == ClassRegexView::Simple(patterns[i]),
        scoped_view(simple_views(patterns)[i], container) == (ClassRegexView::Container {
            container,
            class: patterns[i],
        }),
        scoped_view(
            ClassRegexView::Container { container: other, class: patterns[i] },
            container,
        ) == (ClassRegexView::Container { container: other, class: patterns[i] }),
{
}

/// A sweep counts the blocks of each source, and hands out as a document the blocks
/// that it holds ready: the first of those that wait, as many as a chunk may have, and
/// all of them where no more come.
pub proof fn law_step(sweep: SweepView, blocks: Seq<GroupView>)
    ensures
        fresh_sweep().total == 0,
        sweep.total + blocks.len() <= usize::MAX ==> sweep_with(sweep, blocks).total == sweep.total
            + blocks.len(),
        sweep_with(sweep, blocks).pending == sweep.pending + blocks,
        sweep_next(sweep).total == sweep.total,
        sweep_ended(sweep).total == sweep.total,
        sweep_ended(sweep).ended && sweep_ended(sweep).pending == sweep.pending,
        sweep_next(sweep).chunk + sweep_next(sweep).pending == sweep.pending,
        sweep_next(sweep).chunk.len() > 0 ==> sweep_step(sweep) == StepView::Diagnose(
            document_of(sweep_next(sweep).chunk),
        ),
        sweep.pending.len() >= 2000 ==> sweep_next(sweep).chunk.len() == 2000,
        sweep.pending.len() < 2000 && sweep.ended ==> sweep_next(sweep).chunk == sweep.pending,
        sweep.pending.len() < 2000 && !sweep.ended ==> sweep_step(sweep) is NextSource
            && sweep_next(sweep).pending == sweep.pending,
        sweep.pending.len() == 0 && sweep.ended ==> sweep_step(sweep) is Close,
{
    let next = sweep_next(sweep);
    assert(next.chunk + next.pending =~= sweep.pending);
    if sweep.pending.len() < 2000 && sweep.ended {
        assert(next.chunk =~= sweep.pending);
    }
}

} // verus!
