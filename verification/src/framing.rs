//! What holds of the decoder on whole streams: frames that arrive in
//! pieces, several frames in one buffer, and a damaged frame among sound
//! ones.

use vstd::prelude::*;
use crate::codec::{
    decode_step, first_delimiter, lemma_decode_single, lemma_first_delimiter, DecodeStep, Decoded,
};
use crate::message::{delimiter_free, payload_message, MessageView, DELIMITER};

verus! {

/// The pieces of a stream, put end to end.
pub open spec fn joined(chunks: Seq<Seq<u8>>) -> Seq<u8>
    decreases chunks.len(),
{
    if chunks.len() == 0 {
        Seq::empty()
    } else {
        chunks[0] + joined(chunks.drop_first())
    }
}

/// Whether `frame` is a line without delimiter that spells `m`, closed by
/// the delimiter.
pub open spec fn is_frame_of(frame: Seq<u8>, m: MessageView) -> bool {
    &&& frame.len() >= 1
    &&& frame.last() == DELIMITER
    &&& delimiter_free(frame.drop_last())
    &&& payload_message(frame.drop_last()) == Some(m)
}

/// Whether `frame` is a line without delimiter that spells no message,
/// closed by the delimiter.
pub open spec fn is_damaged_frame(frame: Seq<u8>) -> bool {
    &&& frame.len() >= 1
    &&& frame.last() == DELIMITER
    &&& delimiter_free(frame.drop_last())
    &&& payload_message(frame.drop_last()) is None
}

/// Whether a cursor agrees with a buffer: it lies within it, and no
/// delimiter stands before it.
pub open spec fn in_step(cursor: nat, held: Seq<u8>) -> bool {
    &&& cursor <= held.len()
    &&& delimiter_free(held.subrange(0, cursor as int))
}

/// Feeding a codec piece by piece: each piece is appended to the buffer and
/// followed by one decoding attempt, until an attempt cuts a frame off. The
/// pieces that were not reached are appended to what that attempt left.
pub open spec fn feed(cursor: nat, held: Seq<u8>, chunks: Seq<Seq<u8>>) -> DecodeStep
    decreases chunks.len(),
{
    if chunks.len() == 0 {
        decode_step(cursor, held)
    } else {
        let step = decode_step(cursor, held + chunks[0]);
        if step.outcome is NeedMore {
            feed(step.cursor, step.rest, chunks.drop_first())
        } else {
            DecodeStep {
                cursor: step.cursor,
                rest: step.rest + joined(chunks.drop_first()),
                outcome: step.outcome,
            }
        }
    }
}

/// What repeated decoding attempts on one buffer find, in order, up to the
/// attempt that asks for more bytes.
pub open spec fn drain(bytes: Seq<u8>) -> Seq<Decoded>
    decreases bytes.len(),
{
    let step = decode_step(0, bytes);
    if step.outcome is NeedMore {
        Seq::empty()
    } else {
        proof {
            lemma_first_delimiter(bytes, 0);
        }
        seq![step.outcome] + drain(step.rest)
    }
}

/// What is left in the buffer when repeated decoding attempts reach the one
/// that asks for more bytes.
pub open spec fn drained_rest(bytes: Seq<u8>) -> Seq<u8>
    decreases bytes.len(),
{
    let step = decode_step(0, bytes);
    if step.outcome is NeedMore {
        bytes
    } else {
        proof {
            lemma_first_delimiter(bytes, 0);
        }
        drained_rest(step.rest)
    }
}

/// What the decoder makes of one line.
pub open spec fn line_outcome(line: Seq<u8>) -> Decoded {
    match payload_message(line) {
        Some(m) => Decoded::Frame(m),
        None => Decoded::Malformed,
    }
}

/// Whether `frame` is a line without delimiter, closed by the delimiter.
pub open spec fn is_delimited(frame: Seq<u8>) -> bool {
    &&& frame.len() >= 1
    &&& frame.last() == DELIMITER
    &&& delimiter_free(frame.drop_last())
}

/// A cursor that agrees with the buffer changes nothing: the attempt finds
/// what an attempt from the start finds.
pub proof fn lemma_cursor_is_sound(cursor: nat, held: Seq<u8>)
    requires
        in_step(cursor, held),
    ensures
        decode_step(cursor, held) == decode_step(0, held),
{
    lemma_first_delimiter(held, cursor as int);
    lemma_first_delimiter(held, 0);
    let head = held.subrange(0, cursor as int);
    assert(forall|k: int| 0 <= k < cursor ==> held[k] == head[k]);
    match first_delimiter(held, 0) {
        Some(a) => {
            assert(a >= cursor) by {
                if a < cursor {
                    assert(head[a] != DELIMITER);
                }
            }
            match first_delimiter(held, cursor as int) {
                Some(b) => {
                    assert(a == b) by {
                        if a < b {
                            assert(held[a] != DELIMITER);
                        }
                        if b < a {
                            assert(held[b] != DELIMITER);
                        }
                    }
                },
                None => {
                    assert(held[a] != DELIMITER);
                },
            }
        },
        None => {
            match first_delimiter(held, cursor as int) {
                Some(b) => {
                    assert(held[b] != DELIMITER);
                },
                None => {},
            }
        },
    }
}

/// A decoding attempt by a cursor that agrees with the buffer leaves the
/// cursor in agreement with what stays in the buffer.
pub proof fn lemma_step_keeps_in_step(cursor: nat, held: Seq<u8>)
    requires
        in_step(cursor, held),
    ensures
        in_step(decode_step(cursor, held).cursor, decode_step(cursor, held).rest),
{
    lemma_first_delimiter(held, cursor as int);
    let step = decode_step(cursor, held);
    let head = held.subrange(0, cursor as int);
    assert(forall|k: int| 0 <= k < cursor ==> held[k] == head[k]);
    if first_delimiter(held, cursor as int) is None {
        assert(held.subrange(0, held.len() as int) =~= held);
    } else {
        assert(step.rest.subrange(0, 0) =~= Seq::<u8>::empty());
    }
}

/// Bytes appended behind the cursor leave it in agreement with the buffer.
pub proof fn lemma_append_keeps_in_step(cursor: nat, held: Seq<u8>, more: Seq<u8>)
    requires
        in_step(cursor, held),
    ensures
        in_step(cursor, held + more),
{
    assert((held + more).subrange(0, cursor as int) =~= held.subrange(0, cursor as int));
}

/// A frame that an attempt from the start cuts off is cut off alike when
/// more bytes stand behind the buffer; those bytes stay behind what the
/// attempt leaves.
proof fn lemma_found_with_more(held: Seq<u8>, more: Seq<u8>)
    requires
        !(decode_step(0, held).outcome is NeedMore),
    ensures
        decode_step(0, held + more) == (DecodeStep {
            cursor: 0,
            rest: decode_step(0, held).rest + more,
            outcome: decode_step(0, held).outcome,
        }),
{
    lemma_first_delimiter(held, 0);
    lemma_first_delimiter(held + more, 0);
    let at = first_delimiter(held, 0)->Some_0;
    let whole = held + more;
    assert(whole[at] == DELIMITER);
    assert(forall|k: int| 0 <= k < at ==> whole[k] == held[k]);
    match first_delimiter(whole, 0) {
        Some(b) => {
            assert(b == at) by {
                if b < at {
                    assert(held[b] != DELIMITER);
                }
                if at < b {
                    assert(whole[at] != DELIMITER);
                }
            }
        },
        None => {
            assert(whole[at] != DELIMITER);
        },
    }
    assert(whole.subrange(0, at) =~= held.subrange(0, at));
    assert(whole.subrange(at + 1, whole.len() as int) =~= held.subrange(
        at + 1,
        held.len() as int,
    ) + more);
}

/// Buffer accumulation. Bytes that reach the codec in any number of pieces,
/// with a decoding attempt after each piece, give what the same bytes give
/// when they are in the buffer at once: the same outcome, the same bytes
/// left, the same cursor.
pub proof fn lemma_feed_in_pieces(cursor: nat, held: Seq<u8>, chunks: Seq<Seq<u8>>)
    requires
        in_step(cursor, held),
    ensures
        feed(cursor, held, chunks) == decode_step(0, held + joined(chunks)),
    decreases chunks.len(),
{
    if chunks.len() == 0 {
        lemma_cursor_is_sound(cursor, held);
        assert(held + joined(chunks) =~= held);
    } else {
        let now = held + chunks[0];
        let later = chunks.drop_first();
        lemma_append_keeps_in_step(cursor, held, chunks[0]);
        lemma_cursor_is_sound(cursor, now);
        let step = decode_step(cursor, now);
        assert(held + joined(chunks) =~= now + joined(later));
        if step.outcome is NeedMore {
            lemma_step_keeps_in_step(cursor, now);
            lemma_feed_in_pieces(step.cursor, step.rest, later);
        } else {
            lemma_found_with_more(now, joined(later));
        }
    }
}

/// Buffer accumulation, for one frame and a new codec: however the frame of
/// a message is cut into pieces, feeding the pieces to an empty buffer ends
/// with that message decoded and nothing left.
pub proof fn lemma_frame_in_pieces(frame: Seq<u8>, m: MessageView, chunks: Seq<Seq<u8>>)
    requires
        is_frame_of(frame, m),
        joined(chunks) == frame,
    ensures
        feed(0, Seq::empty(), chunks) == (DecodeStep {
            cursor: 0,
            rest: Seq::empty(),
            outcome: Decoded::Frame(m),
        }),
        feed(0, Seq::empty(), chunks) == decode_step(0, frame),
{
    assert(Seq::<u8>::empty().subrange(0, 0) =~= Seq::<u8>::empty());
    lemma_feed_in_pieces(0, Seq::empty(), chunks);
    assert(Seq::<u8>::empty() + joined(chunks) =~= frame);
    lemma_decode_single(frame.drop_last(), Seq::empty());
    assert(frame.drop_last().push(DELIMITER) + Seq::<u8>::empty() =~= frame);
}

/// Delimited lines put end to end are decoded one by one, each by itself:
/// the attempts find what each line spells, in order, and leave nothing.
pub proof fn lemma_drain_frames(frames: Seq<Seq<u8>>)
    requires
        forall|i: int| 0 <= i < frames.len() ==> is_delimited(#[trigger] frames[i]),
    ensures
        drain(joined(frames)) == Seq::new(
            frames.len(),
            |i: int| line_outcome(frames[i].drop_last()),
        ),
        drained_rest(joined(frames)) == Seq::<u8>::empty(),
    decreases frames.len(),
{
    let expected = Seq::new(frames.len(), |i: int| line_outcome(frames[i].drop_last()));
    if frames.len() == 0 {
        assert(first_delimiter(Seq::<u8>::empty(), 0) is None);
        assert(drain(joined(frames)) =~= expected);
    } else {
        let later = frames.drop_first();
        let line = frames[0].drop_last();
        assert(is_delimited(frames[0]));
        assert(line.push(DELIMITER) =~= frames[0]);
        lemma_decode_single(line, joined(later));
        assert forall|i: int| 0 <= i < later.len() implies is_delimited(#[trigger] later[i]) by {
            assert(later[i] == frames[i + 1]);
        }
        lemma_drain_frames(later);
        let rest_expected = Seq::new(later.len(), |i: int| line_outcome(later[i].drop_last()));
        assert(drain(joined(frames)) == seq![line_outcome(line)] + drain(joined(later)));
        assert(seq![line_outcome(line)] + rest_expected =~= expected) by {
            assert forall|i: int| 0 <= i < expected.len() implies (seq![line_outcome(line)]
                + rest_expected)[i] == expected[i] by {
                if i > 0 {
                    assert(later[i - 1] == frames[i]);
                }
            }
        }
    }
}

/// Multi-frame. A buffer that holds the frames of `messages`, one behind the
/// other, is decoded by repeated attempts into exactly those messages, in
/// order; the attempt after the last asks for more bytes on an empty buffer.
pub proof fn lemma_frames_decode_in_order(frames: Seq<Seq<u8>>, messages: Seq<MessageView>)
    requires
        frames.len() == messages.len(),
        forall|i: int| 0 <= i < frames.len() ==> is_frame_of(#[trigger] frames[i], messages[i]),
    ensures
        drain(joined(frames)) == Seq::new(messages.len(), |i: int| Decoded::Frame(messages[i])),
        drained_rest(joined(frames)) == Seq::<u8>::empty(),
        decode_step(0, drained_rest(joined(frames))).outcome is NeedMore,
{
    assert forall|i: int| 0 <= i < frames.len() implies is_delimited(#[trigger] frames[i]) by {
        assert(is_frame_of(frames[i], messages[i]));
    }
    lemma_drain_frames(frames);
    assert(drain(joined(frames)) =~= Seq::new(
        messages.len(),
        |i: int| Decoded::Frame(messages[i]),
    )) by {
        assert forall|i: int| 0 <= i < frames.len() implies line_outcome(frames[i].drop_last())
            == Decoded::Frame(messages[i]) by {
            assert(is_frame_of(frames[i], messages[i]));
        }
    }
    assert(first_delimiter(Seq::<u8>::empty(), 0) is None);
}

/// Malformed-frame isolation. A damaged frame between two sound ones costs
/// exactly one error: the attempts give the first message, the error, the
/// second message, and leave nothing.
pub proof fn lemma_damage_is_isolated(
    first: Seq<u8>,
    damaged: Seq<u8>,
    second: Seq<u8>,
    m1: MessageView,
    m2: MessageView,
)
    requires
        is_frame_of(first, m1),
        is_damaged_frame(damaged),
        is_frame_of(second, m2),
    ensures
        drain(first + damaged + second) == seq![
            Decoded::Frame(m1),
            Decoded::Malformed,
            Decoded::Frame(m2),
        ],
        drained_rest(first + damaged + second) == Seq::<u8>::empty(),
{
    let frames = seq![first, damaged, second];
    assert(frames[0] == first && frames[1] == damaged && frames[2] == second);
    lemma_drain_frames(frames);
    assert(joined(frames) =~= first + damaged + second) by {
        let f1 = frames.drop_first();
        let f2 = f1.drop_first();
        let f3 = f2.drop_first();
        assert(f1[0] == damaged);
        assert(f2[0] == second);
        assert(f3.len() == 0);
        assert(joined(f3) =~= Seq::<u8>::empty());
        assert(joined(f2) =~= second);
        assert(joined(f1) =~= damaged + second);
    }
    assert(drain(joined(frames)) =~= seq![
        Decoded::Frame(m1),
        Decoded::Malformed,
        Decoded::Frame(m2),
    ]);
}

} // verus!
