//! The framed codec: one message per line.
//!
//! A frame is a message's text followed by one delimiter byte. The decoder
//! keeps a cursor that records how much of the buffer it has already
//! searched, so that a frame arriving in pieces is searched once.

use vstd::prelude::*;
use bytes::BytesMut;
use crate::buffer::{buffer_bytes, buffer_put, buffer_split_to, buffered};
use crate::message::{
    delimiter_free, payload_message, wire_text, Message, MessageView, DELIMITER,
};

verus! {

/// Why the codec refused.
#[derive(Debug, Clone, Copy, PartialEq, Eq)]
pub enum CodecError {
    /// The bytes of one frame spell no message.
    Malformed,
    /// The frame would grow the buffer beyond what a buffer can hold.
    TooLarge,
}

/// What one decoding attempt found.
pub enum Decoded {
    /// No complete frame yet.
    NeedMore,
    /// A frame that spells this message.
    Frame(MessageView),
    /// A frame that spells no message.
    Malformed,
}

/// The state after one decoding attempt, and what it found.
pub struct DecodeStep {
    /// How much of `rest` is known to hold no delimiter.
    pub cursor: nat,
    /// What stays in the buffer.
    pub rest: Seq<u8>,
    pub outcome: Decoded,
}

/// The frame of a message: its text, then the delimiter.
pub open spec fn wire_frame(m: MessageView) -> Seq<u8> {
    wire_text(m).push(DELIMITER)
}

/// The offset of the first delimiter at or after `from`.
pub open spec fn first_delimiter(bytes: Seq<u8>, from: int) -> Option<int>
    decreases bytes.len() - from,
{
    if from < 0 || from >= bytes.len() {
        None
    } else if bytes[from] == DELIMITER {
        Some(from)
    } else {
        first_delimiter(bytes, from + 1)
    }
}

/// One decoding attempt on a buffer that holds `bytes`, by a codec whose
/// cursor stands at `cursor`.
pub open spec fn decode_step(cursor: nat, bytes: Seq<u8>) -> DecodeStep {
    let from = if cursor <= bytes.len() { cursor as int } else { bytes.len() as int };
    match first_delimiter(bytes, from) {
        None => DecodeStep { cursor: bytes.len(), rest: bytes, outcome: Decoded::NeedMore },
        Some(at) => DecodeStep {
            cursor: 0,
            rest: bytes.subrange(at + 1, bytes.len() as int),
            outcome: match payload_message(bytes.subrange(0, at)) {
                Some(m) => Decoded::Frame(m),
                None => Decoded::Malformed,
            },
        },
    }
}

/// Whether a buffer that holds `held` has room for `more` further bytes.
pub open spec fn has_room(held: Seq<u8>, more: Seq<u8>) -> bool {
    held.len() + more.len() <= isize::MAX
}

/// What `first_delimiter` finds, said without recursion: the delimiter
/// stands there and nowhere between `from` and there.
pub proof fn lemma_first_delimiter(bytes: Seq<u8>, from: int)
    requires
        0 <= from <= bytes.len(),
    ensures
        match first_delimiter(bytes, from) {
            Some(at) => {
                &&& from <= at < bytes.len()
                &&& bytes[at] == DELIMITER
                &&& forall|k: int| from <= k < at ==> bytes[k] != DELIMITER
            },
            None => forall|k: int| from <= k < bytes.len() ==> bytes[k] != DELIMITER,
        },
    decreases bytes.len() - from,
{
    if from < bytes.len() && bytes[from] != DELIMITER {
        lemma_first_delimiter(bytes, from + 1);
    }
}

/// Searches `bytes` for the first delimiter at or after `from`.
pub fn find_delimiter(bytes: &[u8], from: usize) -> (found: Option<usize>)
    ensures
        match found {
            Some(at) => first_delimiter(bytes@, from as int) == Some(at as int),
            None => first_delimiter(bytes@, from as int) is None,
        },
{
    let mut i: usize = from;
    while i < bytes.len()
        invariant
            from <= i,
            first_delimiter(bytes@, from as int) == first_delimiter(bytes@, i as int),
        decreases bytes@.len() - i,
    {
        if bytes[i] == DELIMITER {
            return Some(i);
        }
        i += 1;
    }
    None
}

/// The codec's state: the decoder's cursor.
pub struct MsgCodec {
    next_pos: usize,
}

impl MsgCodec {
    /// How many bytes at the front of the buffer the decoder has already
    /// searched without finding a delimiter.
    pub closed spec fn scanned(&self) -> nat {
        self.next_pos as nat
    }

    /// A codec that has searched nothing yet.
    pub fn new() -> (codec: MsgCodec)
        ensures
            codec.scanned() == 0,
    {
        MsgCodec { next_pos: 0 }
    }

    /// Appends the frame of `item` to `buf`.
    ///
    /// The frame is the message's text and one delimiter; the text itself
    /// holds none, and decoding the frame gives `item` back. The buffer is
    /// left as it was, and `TooLarge` returned, exactly where it has no room
    /// for the frame. The cursor does not move.
    pub fn encode(&mut self, item: Message, buf: &mut BytesMut) -> (r: Result<(), CodecError>)
        ensures
            final(self).scanned() == old(self).scanned(),
            delimiter_free(wire_text(item@)),
            decode_step(0, wire_frame(item@)) == (DecodeStep {
                cursor: 0,
                rest: Seq::empty(),
                outcome: Decoded::Frame(item@),
            }),
            has_room(buffered(*old(buf)), wire_frame(item@)) ==> r == Ok::<(), CodecError>(())
                && buffered(*final(buf)) == buffered(*old(buf)) + wire_frame(item@),
            !has_room(buffered(*old(buf)), wire_frame(item@)) ==> r == Err::<(), CodecError>(
                CodecError::TooLarge,
            ) && buffered(*final(buf)) == buffered(*old(buf)),
    {
        let mut frame = item.to_wire();
        proof {
            lemma_decode_single(wire_text(item@), Seq::empty());
            assert(wire_text(item@).push(DELIMITER) + Seq::<u8>::empty() =~= wire_frame(item@));
        }
        let held: usize = buffer_bytes(buf).len();
        let limit: usize = isize::MAX as usize;
        if frame.len() >= limit || held > limit - frame.len() - 1 {
            return Err(CodecError::TooLarge);
        }
        frame.push(DELIMITER);
        buffer_put(buf, frame.as_slice());
        Ok(())
    }

    /// Attempts to cut one frame off the front of `buf`.
    ///
    /// The search for the delimiter starts at the cursor. Where there is
    /// none, the buffer stays, the cursor moves to its end, and the result is
    /// `Ok(None)`. Where it stands at offset `at`, the bytes up to and
    /// including it leave the buffer, the cursor returns to 0, and the bytes
    /// before it are read as one message: `Ok(Some(..))` where they spell
    /// one, `Err(Malformed)` where they do not.
    pub fn decode(&mut self, buf: &mut BytesMut) -> (r: Result<Option<Message>, CodecError>)
        ensures
            final(self).scanned() == decode_step(old(self).scanned(), buffered(*old(buf))).cursor,
            buffered(*final(buf)) == decode_step(old(self).scanned(), buffered(*old(buf))).rest,
            match decode_step(old(self).scanned(), buffered(*old(buf))).outcome {
                Decoded::NeedMore => r matches Ok(None),
                Decoded::Frame(m) => r matches Ok(Some(got)) && got@ == m,
                Decoded::Malformed => r == Err::<Option<Message>, CodecError>(
                    CodecError::Malformed,
                ),
            },
    {
        let bytes = buffer_bytes(buf);
        let held: usize = bytes.len();
        let from: usize = if self.next_pos <= held { self.next_pos } else { held };
        let found = find_delimiter(bytes, from);
        proof {
            lemma_first_delimiter(bytes@, from as int);
        }
        match found {
            None => {
                self.next_pos = held;
                Ok(None)
            },
            Some(at) => {
                self.next_pos = 0;
                let frame = buffer_split_to(buf, at + 1);
                let line = buffer_bytes(&frame);
                let payload = vstd::slice::slice_subrange(line, 0, at);
                assert(payload@ =~= buffered(*old(buf)).subrange(0, at as int));
                match Message::from_wire(payload) {
                    Some(m) => Ok(Some(m)),
                    None => Err(CodecError::Malformed),
                }
            },
        }
    }
}

/// A line without a delimiter, followed by the delimiter and anything
/// else, is what the next decoding attempt from the start cuts off: the
/// attempt leaves exactly what followed, and reads the line alone.
pub proof fn lemma_decode_single(line: Seq<u8>, tail: Seq<u8>)
    requires
        delimiter_free(line),
    ensures
        decode_step(0, line.push(DELIMITER) + tail) == (DecodeStep {
            cursor: 0,
            rest: tail,
            outcome: match payload_message(line) {
                Some(m) => Decoded::Frame(m),
                None => Decoded::Malformed,
            },
        }),
{
    let bytes = line.push(DELIMITER) + tail;
    lemma_first_delimiter(bytes, 0);
    let at = line.len() as int;
    assert(bytes[at] == DELIMITER);
    assert(forall|k: int| 0 <= k < at ==> bytes[k] == line[k]);
    assert(first_delimiter(bytes, 0) == Some(at));
    assert(bytes.subrange(0, at) =~= line);
    assert(bytes.subrange(at + 1, bytes.len() as int) =~= tail);
}

} // verus!
