//! The protocol messages and their text on the wire.

use vstd::prelude::*;
use crate::json::{json_literal, json_quote, json_text, json_unquote};

verus! {

/// One protocol message.
#[derive(Debug, Clone, PartialEq, Eq)]
pub enum Message {
    /// Handshake greeting with free-form text.
    Hello { msg: String },
    /// Liveness probe.
    Ping,
    /// Reply to a probe.
    Pong,
    /// Request to close the connection gracefully.
    Terminate,
}

/// The mathematical value of a [`Message`].
pub enum MessageView {
    Hello { msg: Seq<char> },
    Ping,
    Pong,
    Terminate,
}

impl View for Message {
    type V = MessageView;

    open spec fn view(&self) -> MessageView {
        match self {
            Message::Hello { msg } => MessageView::Hello { msg: msg@ },
            Message::Ping => MessageView::Ping,
            Message::Pong => MessageView::Pong,
            Message::Terminate => MessageView::Terminate,
        }
    }
}

/// The frame delimiter, a line feed.
pub const DELIMITER: u8 = 10;

/// `"Ping"`, quotes included.
pub open spec fn ping_text() -> Seq<u8> {
    seq![34u8, 80u8, 105u8, 110u8, 103u8, 34u8]
}

/// `"Pong"`, quotes included.
pub open spec fn pong_text() -> Seq<u8> {
    seq![34u8, 80u8, 111u8, 110u8, 103u8, 34u8]
}

/// `"Terminate"`, quotes included.
pub open spec fn terminate_text() -> Seq<u8> {
    seq![34u8, 84u8, 101u8, 114u8, 109u8, 105u8, 110u8, 97u8, 116u8, 101u8, 34u8]
}

/// `{"Hello":{"msg":`, what stands before the greeting's text.
pub open spec fn hello_prefix() -> Seq<u8> {
    seq![
        123u8, 34u8, 72u8, 101u8, 108u8, 108u8, 111u8, 34u8, 58u8,
        123u8, 34u8, 109u8, 115u8, 103u8, 34u8, 58u8,
    ]
}

/// `}}`, what stands behind the greeting's text.
pub open spec fn hello_suffix() -> Seq<u8> {
    seq![125u8, 125u8]
}

/// Whether the delimiter occurs nowhere in `bytes`.
pub open spec fn delimiter_free(bytes: Seq<u8>) -> bool {
    forall|i: int| 0 <= i < bytes.len() ==> bytes[i] != DELIMITER
}

/// The text of a message on the wire, without the delimiter.
pub open spec fn wire_text(m: MessageView) -> Seq<u8> {
    match m {
        MessageView::Hello { msg } => hello_prefix() + json_literal(msg) + hello_suffix(),
        MessageView::Ping => ping_text(),
        MessageView::Pong => pong_text(),
        MessageView::Terminate => terminate_text(),
    }
}

/// Whether `payload` has the outline of a greeting: prefix, something, suffix.
pub open spec fn hello_shaped(payload: Seq<u8>) -> bool {
    &&& payload.len() >= hello_prefix().len() + hello_suffix().len()
    &&& payload.subrange(0, hello_prefix().len() as int) == hello_prefix()
    &&& payload.subrange(payload.len() - hello_suffix().len(), payload.len() as int)
        == hello_suffix()
}

/// What stands between prefix and suffix of a greeting-shaped payload.
pub open spec fn hello_body(payload: Seq<u8>) -> Seq<u8> {
    payload.subrange(hello_prefix().len() as int, payload.len() - hello_suffix().len())
}

/// The message that a payload spells, `None` where it spells none.
pub open spec fn payload_message(payload: Seq<u8>) -> Option<MessageView> {
    if payload == ping_text() {
        Some(MessageView::Ping)
    } else if payload == pong_text() {
        Some(MessageView::Pong)
    } else if payload == terminate_text() {
        Some(MessageView::Terminate)
    } else if hello_shaped(payload) {
        match json_text(hello_body(payload)) {
            Some(msg) => Some(MessageView::Hello { msg }),
            None => None,
        }
    } else {
        None
    }
}

/// Whether two byte slices hold the same bytes.
pub fn same_bytes(a: &[u8], b: &[u8]) -> (same: bool)
    ensures
        same == (a@ == b@),
{
    if a.len() != b.len() {
        return false;
    }
    let mut i: usize = 0;
    while i < a.len()
        invariant
            a@.len() == b@.len(),
            i <= a@.len(),
            forall|k: int| 0 <= k < i ==> a@[k] == b@[k],
        decreases a@.len() - i,
    {
        if a[i] != b[i] {
            return false;
        }
        i += 1;
    }
    assert(a@ =~= b@);
    true
}

/// Appends `src` to `out`.
pub fn append_bytes(out: &mut Vec<u8>, src: &[u8])
    ensures
        final(out)@ == old(out)@ + src@,
{
    let mut i: usize = 0;
    while i < src.len()
        invariant
            i <= src@.len(),
            out@ == old(out)@ + src@.subrange(0, i as int),
        decreases src@.len() - i,
    {
        out.push(src[i]);
        i += 1;
        assert(out@ =~= old(out)@ + src@.subrange(0, i as int));
    }
    assert(src@.subrange(0, src@.len() as int) =~= src@);
}

fn ping_bytes() -> (r: Vec<u8>)
    ensures
        r@ == ping_text(),
{
    let r = vec![34u8, 80u8, 105u8, 110u8, 103u8, 34u8];
    assert(r@ =~= ping_text());
    r
}

fn pong_bytes() -> (r: Vec<u8>)
    ensures
        r@ == pong_text(),
{
    let r = vec![34u8, 80u8, 111u8, 110u8, 103u8, 34u8];
    assert(r@ =~= pong_text());
    r
}

fn terminate_bytes() -> (r: Vec<u8>)
    ensures
        r@ == terminate_text(),
{
    let r = vec![34u8, 84u8, 101u8, 114u8, 109u8, 105u8, 110u8, 97u8, 116u8, 101u8, 34u8];
    assert(r@ =~= terminate_text());
    r
}

fn hello_prefix_bytes() -> (r: Vec<u8>)
    ensures
        r@ == hello_prefix(),
{
    let r = vec![
        123u8, 34u8, 72u8, 101u8, 108u8, 108u8, 111u8, 34u8, 58u8,
        123u8, 34u8, 109u8, 115u8, 103u8, 34u8, 58u8,
    ];
    assert(r@ =~= hello_prefix());
    r
}

fn hello_suffix_bytes() -> (r: Vec<u8>)
    ensures
        r@ == hello_suffix(),
{
    let r = vec![125u8, 125u8];
    assert(r@ =~= hello_suffix());
    r
}

/// Every message's text is free of the delimiter and spells that message,
/// given the two facts about its greeting text that hold of a JSON literal.
pub proof fn lemma_wire_text_reads_back(m: MessageView)
    requires
        m is Hello ==> delimiter_free(json_literal(m->msg)),
        m is Hello ==> json_text(json_literal(m->msg)) == Some(m->msg),
    ensures
        delimiter_free(wire_text(m)),
        payload_message(wire_text(m)) == Some(m),
{
    let t = wire_text(m);
    match m {
        MessageView::Hello { msg } => {
            let lit = json_literal(msg);
            assert(t.len() == 16 + lit.len() + 2);
            assert(t[0] == 123u8);
            assert(t != ping_text());
            assert(t != pong_text());
            assert(t != terminate_text());
            assert(t.subrange(0, 16) =~= hello_prefix());
            assert(t.subrange(t.len() - 2, t.len() as int) =~= hello_suffix());
            assert(hello_body(t) =~= lit);
            assert forall|i: int| 0 <= i < t.len() implies t[i] != DELIMITER by {
                if i < 16 {
                    assert(t[i] == hello_prefix()[i]);
                } else if i < 16 + lit.len() {
                    assert(t[i] == lit[i - 16]);
                } else {
                    assert(t[i] == hello_suffix()[i - 16 - lit.len()]);
                }
            }
        },
        MessageView::Ping => {},
        MessageView::Pong => {
            assert(pong_text()[2] != ping_text()[2]);
        },
        MessageView::Terminate => {
            assert(terminate_text().len() != ping_text().len());
        },
    }
}

impl Message {
    /// The message's text on the wire, without the delimiter.
    ///
    /// The text holds no delimiter, and [`Message::from_wire`] reads it back
    /// as the same message.
    pub fn to_wire(&self) -> (text: Vec<u8>)
        ensures
            text@ == wire_text(self@),
            delimiter_free(text@),
            payload_message(text@) == Some(self@),
    {
        let text = match self {
            Message::Hello { msg } => {
                let literal = match json_quote(msg.as_str()) {
                    Ok(bytes) => bytes,
                    Err(_) => Vec::new(),
                };
                let mut out = hello_prefix_bytes();
                append_bytes(&mut out, literal.as_slice());
                let suffix = hello_suffix_bytes();
                append_bytes(&mut out, suffix.as_slice());
                out
            },
            Message::Ping => ping_bytes(),
            Message::Pong => pong_bytes(),
            Message::Terminate => terminate_bytes(),
        };
        proof {
            lemma_wire_text_reads_back(self@);
        }
        text
    }

    /// Reads one payload, the bytes of a frame without its delimiter.
    ///
    /// Returns the message that the payload spells, `None` where it spells
    /// none.
    pub fn from_wire(payload: &[u8]) -> (r: Option<Message>)
        ensures
            match r {
                Some(m) => payload_message(payload@) == Some(m@),
                None => payload_message(payload@) is None,
            },
    {
        let ping = ping_bytes();
        let pong = pong_bytes();
        let terminate = terminate_bytes();
        if same_bytes(payload, ping.as_slice()) {
            return Some(Message::Ping);
        }
        if same_bytes(payload, pong.as_slice()) {
            return Some(Message::Pong);
        }
        if same_bytes(payload, terminate.as_slice()) {
            return Some(Message::Terminate);
        }
        let prefix = hello_prefix_bytes();
        let suffix = hello_suffix_bytes();
        let n: usize = payload.len();
        if n < 18 {
            return None;
        }
        let head = vstd::slice::slice_subrange(payload, 0, 16);
        let tail = vstd::slice::slice_subrange(payload, n - 2, n);
        if !same_bytes(head, prefix.as_slice()) || !same_bytes(tail, suffix.as_slice()) {
            return None;
        }
        let body = vstd::slice::slice_subrange(payload, 16, n - 2);
        match json_unquote(body) {
            Ok(msg) => Some(Message::Hello { msg }),
            Err(_) => None,
        }
    }
}

} // verus!
