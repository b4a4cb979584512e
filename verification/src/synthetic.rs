//! The one document in which blocks are diagnosed. It is opened once and gets
//! each chunk as its new text, so that the server never holds more than one
//! document, however many blocks there are.
use crate::lsp::client::{
    change_json, diagnostics_request, document_json, notification_of, open_json, requested, Client,
};
use crate::lsp::transport::{Message, RequestId};
use crate::paths::{
    file_uri, file_url, may_join, plain_root, plainly_relative, rooted, synthetic_path, uri_for,
};
use vstd::prelude::*;
use vstd::string::*;

verus! {

/// The document: its URI and the version of its text.
#[derive(Debug)]
pub struct Synthetic {
    pub uri: String,
    pub version: u32,
}

/// The root of a project is not an absolute path.
#[derive(Debug)]
pub struct RelativeRoot;

impl RelativeRoot {
    pub fn message(&self) -> (text: String)
        ensures
            text@ == "root is not absolute"@,
    {
        "root is not absolute".to_string()
    }
}

/// A URI of the document below a root.
pub open spec fn synthetic_uri(uri: Seq<char>, root: Seq<char>) -> bool {
    exists|path: Seq<char>| #[trigger]
        may_join(path, root, "__twlint_synthetic.html"@) && uri_for(uri, path)
}

/// The largest version that a document can have.
pub const LAST_VERSION: u32 = 0x7fff_ffff;

impl Synthetic {
    /// Open the document under a URI, without text.
    pub fn open_at<R, W>(client: &mut Client<R, W>, uri: String) -> (opened: (Synthetic, Message))
        ensures
            final(client)@ == old(client)@,
            opened.0.uri@ == uri@,
            opened.0.version == 1,
            opened.1@ == notification_of(
                "textDocument/didOpen"@,
                open_json(uri@, "html"@, ""@),
            ),
    {
        let message = client.open_document(uri.as_str(), "html", "");
        (Synthetic { uri, version: 1 }, message)
    }

    /// Open the document below a root, without text. A plainly relative root is
    /// refused; which of the others are absolute rests on the platform.
    pub fn open<R, W>(client: &mut Client<R, W>, root: &str) -> (opened: Result<
        (Synthetic, Message),
        RelativeRoot,
    >)
        ensures
            final(client)@ == old(client)@,
            plainly_relative(root@) ==> opened is Err,
            opened matches Ok(pair) ==> {
                &&& synthetic_uri(pair.0.uri@, root@)
                &&& plain_root(root@) ==> pair.0.uri@ == file_url(
                    root@ + seq!['/'] + "__twlint_synthetic.html"@,
                ) || pair.0.uri@ == file_url(root@ + seq!['\\'] + "__twlint_synthetic.html"@)
                &&& pair.0.version == 1
                &&& pair.1@ == notification_of(
                    "textDocument/didOpen"@,
                    open_json(pair.0.uri@, "html"@, ""@),
                )
            },
    {
        let path = synthetic_path(root);
        match file_uri(path.as_str()) {
            Some(uri) => {
                assert(plain_root(root@) ==> rooted(path@));
                assert(synthetic_uri(uri@, root@)) by {
                    assert(may_join(path@, root@, "__twlint_synthetic.html"@));
                }
                Ok(Synthetic::open_at(client, uri))
            },
            None => Err(RelativeRoot),
        }
    }

    /// Put a chunk's text into the document, as its next version, and ask for its
    /// diagnostics: gives the notification and the request to be sent.
    pub fn diagnose<R, W>(&mut self, client: &mut Client<R, W>, text: &str) -> (sent: (
        Message,
        RequestId,
        Message,
    ))
        requires
            old(self).version < LAST_VERSION,
            old(client)@.next_id < i32::MAX,
        ensures
            final(self).uri@ == old(self).uri@,
            final(self).version == old(self).version + 1,
            final(client)@ == requested(old(client)@),
            sent.0@ == notification_of(
                "textDocument/didChange"@,
                change_json(old(self).uri@, final(self).version as nat, text@),
            ),
            (sent.1@, sent.2@) == diagnostics_request(old(client)@, old(self).uri@),
    {
        self.version = self.version + 1;
        let change = client.change_document(self.uri.as_str(), text, self.version);
        let (id, request) = client.ask_diagnostics(self.uri.as_str());
        (change, id, request)
    }

    /// Close the document.
    pub fn close<R, W>(self, client: &mut Client<R, W>) -> (message: Message)
        ensures
            final(client)@ == old(client)@,
            message@ == notification_of("textDocument/didClose"@, document_json(self.uri@)),
    {
        client.close_document(self.uri.as_str())
    }
}

} // verus!
