//! The messages of the protocol, and the numbers by which requests and their
//! responses are matched.
use crate::json::{optional_json, Json, JsonView};
use crate::text::same_text;
use vstd::prelude::*;
use vstd::string::*;

verus! {

/// What a response names its request by.
#[derive(Debug)]
pub enum RequestId {
    Number(i32),
    Name(String),
}

pub enum RequestIdView {
    Number(i32),
    Name(Seq<char>),
}

impl View for RequestId {
    type V = RequestIdView;

    open spec fn view(&self) -> RequestIdView {
        match self {
            RequestId::Number(number) => RequestIdView::Number(*number),
            RequestId::Name(name) => RequestIdView::Name(name@),
        }
    }
}

impl RequestId {
    pub fn same(&self, other: &RequestId) -> (yes: bool)
        ensures
            yes == (self@ == other@),
    {
        match (self, other) {
            (RequestId::Number(a), RequestId::Number(b)) => *a == *b,
            (RequestId::Name(a), RequestId::Name(b)) => same_text(a.as_str(), b.as_str()),
            (RequestId::Number(_), RequestId::Name(_)) => false,
            (RequestId::Name(_), RequestId::Number(_)) => false,
        }
    }
}

#[derive(Debug)]
pub struct Request {
    pub id: RequestId,
    pub method: String,
    pub params: Json,
}

pub struct RequestView {
    pub id: RequestIdView,
    pub method: Seq<char>,
    pub params: JsonView,
}

impl View for Request {
    type V = RequestView;

    open spec fn view(&self) -> RequestView {
        RequestView { id: self.id@, method: self.method@, params: self.params@ }
    }
}

/// A response: its result, or the message of an error.
#[derive(Debug)]
pub struct Response {
    pub id: RequestId,
    pub result: Option<Json>,
    pub error: Option<String>,
}

pub struct ResponseView {
    pub id: RequestIdView,
    pub result: Option<JsonView>,
    pub error: Option<Seq<char>>,
}

impl View for Response {
    type V = ResponseView;

    open spec fn view(&self) -> ResponseView {
        ResponseView {
            id: self.id@,
            result: optional_json(self.result),
            error: match self.error {
                Some(message) => Some(message@),
                None => None,
            },
        }
    }
}

#[derive(Debug)]
pub struct Notification {
    pub method: String,
    pub params: Json,
}

pub struct NotificationView {
    pub method: Seq<char>,
    pub params: JsonView,
}

impl View for Notification {
    type V = NotificationView;

    open spec fn view(&self) -> NotificationView {
        NotificationView { method: self.method@, params: self.params@ }
    }
}

#[derive(Debug)]
pub enum Message {
    Request(Request),
    Response(Response),
    Notification(Notification),
}

pub enum MessageView {
    Request(RequestView),
    Response(ResponseView),
    Notification(NotificationView),
}

impl View for Message {
    type V = MessageView;

    open spec fn view(&self) -> MessageView {
        match self {
            Message::Request(request) => MessageView::Request(request@),
            Message::Response(response) => MessageView::Response(response@),
            Message::Notification(notification) => MessageView::Notification(notification@),
        }
    }
}

/// A connection to a server: where messages are read from and written to, and
/// the number of the last request.
pub struct Transport<R, W> {
    pub reader: R,
    pub writer: W,
    pub next_id: i32,
}

impl<R, W> Transport<R, W> {
    pub fn new(reader: R, writer: W) -> (transport: Transport<R, W>)
        ensures
            transport == (Transport { reader, writer, next_id: 0i32 }),
    {
        Transport { reader, writer, next_id: 0 }
    }

    /// A request to be written, and the number that its response will bear: each
    /// request has the number after that of the one before.
    pub fn send_request(&mut self, method: &str, params: Json) -> (sent: (RequestId, Message))
        requires
            old(self).next_id < i32::MAX,
        ensures
            *final(self) == (Transport { next_id: (old(self).next_id + 1) as i32, ..*old(self) }),
            sent.0@ == RequestIdView::Number(final(self).next_id),
            sent.1@ == MessageView::Request(
                RequestView { id: sent.0@, method: method@, params: params@ },
            ),
    {
        self.next_id = self.next_id + 1;
        let id = RequestId::Number(self.next_id);
        let request = Request {
            id: RequestId::Number(self.next_id),
            method: method.to_string(),
            params,
        };
        (id, Message::Request(request))
    }

    /// A notification to be written.
    pub fn send_notification(&mut self, method: &str, params: Json) -> (message: Message)
        ensures
            *final(self) == *old(self),
            message@ == MessageView::Notification(
                NotificationView { method: method@, params: params@ },
            ),
    {
        Message::Notification(Notification { method: method.to_string(), params })
    }

    /// A response to be written.
    pub fn send_response(&mut self, id: RequestId, result: Json) -> (message: Message)
        ensures
            *final(self) == *old(self),
            message@ == MessageView::Response(
                ResponseView { id: id@, result: Some(result@), error: None },
            ),
    {
        Message::Response(Response { id, result: Some(result), error: None })
    }
}

} // verus!
