use lsp_server::Message as Wire;
use tw_lint::json::Json;
use tw_lint::lsp::transport::{Message, RequestId, Transport};

fn frame(body: &str) -> Vec<u8> {
    format!("Content-Length: {}\r\n\r\n{}", body.len(), body).into_bytes()
}

fn write(message: &Message, out: &mut Vec<u8>) {
    let wire: Wire = match message {
        Message::Request(request) => lsp_server::Request {
            id: match &request.id {
                RequestId::Number(number) => (*number).into(),
                RequestId::Name(name) => name.clone().into(),
            },
            method: request.method.clone(),
            params: match &request.params {
                Json::Null => serde_json::Value::Null,
                _ => serde_json::Value::Object(serde_json::Map::new()),
            },
        }
        .into(),
        other => panic!("expected a request, got {other:?}"),
    };
    wire.write(out).unwrap();
}

#[test]
fn writes_a_request_with_incrementing_ids() {
    let input: Vec<u8> = Vec::new();
    let out: Vec<u8> = Vec::new();
    let mut t = Transport::new(std::io::Cursor::new(input), out);
    let (first, message) = t.send_request("initialize", Json::Object(vec![]));
    write(&message, &mut t.writer);
    let (second, message) = t.send_request("shutdown", Json::Null);
    write(&message, &mut t.writer);
    assert!(!first.same(&second));
    assert!(first.same(&RequestId::Number(1)));
    assert!(second.same(&RequestId::Number(2)));
    let text = String::from_utf8(t.writer).unwrap();
    assert!(text.contains("Content-Length:"));
    assert!(text.contains("\"method\":\"initialize\""));
}

#[test]
fn reads_a_framed_response_message() {
    let body = r#"{"jsonrpc":"2.0","id":1,"result":{"ok":true}}"#;
    let mut t = Transport::new(std::io::Cursor::new(frame(body)), Vec::<u8>::new());
    let msg = Wire::read(&mut t.reader).unwrap().expect("a message");
    match msg {
        Wire::Response(r) => {
            let mut ok = serde_json::Map::new();
            ok.insert("ok".to_string(), serde_json::Value::Bool(true));
            assert_eq!(r.result.unwrap(), serde_json::Value::Object(ok))
        }
        other => panic!("expected response, got {other:?}"),
    }
}

#[test]
fn notifications_and_responses_take_no_number() {
    let mut t = Transport::new((), ());
    match t.send_notification("exit", Json::Null) {
        Message::Notification(note) => assert_eq!(note.method, "exit"),
        other => panic!("expected a notification, got {other:?}"),
    }
    match t.send_response(RequestId::Name("x".to_string()), Json::Bool(true)) {
        Message::Response(response) => {
            assert!(response.id.same(&RequestId::Name("x".to_string())));
            assert!(!response.id.same(&RequestId::Number(0)));
            assert!(matches!(response.result, Some(Json::Bool(true))));
            assert!(response.error.is_none());
        }
        other => panic!("expected a response, got {other:?}"),
    }
    assert_eq!(t.next_id, 0);
}
