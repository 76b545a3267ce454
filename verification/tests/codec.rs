use bytes::BytesMut;
use p2pmsg_lib::codec::{find_delimiter, CodecError, MsgCodec};
use p2pmsg_lib::message::{append_bytes, same_bytes, Message};

fn hello(text: &str) -> Message {
    Message::Hello { msg: text.to_string() }
}

fn text_of(m: &Message) -> String {
    String::from_utf8(m.to_wire()).unwrap()
}

#[test]
fn test_json() {
    let m = hello("Hello world");

    let txt = text_of(&m);
    println!("message looks like: {}", txt);

    let p = Message::Ping;

    let txt = text_of(&p);
    println!("ping looks like: {}", txt);

    let mut codec = MsgCodec::new();
    let mut buf = BytesMut::new();
    codec.encode(m.clone(), &mut buf).unwrap();

    let res = codec.decode(&mut buf).unwrap();

    assert_eq!(0, buf.len());

    match (m, res) {
        (Message::Hello { msg: m1 }, Some(Message::Hello { msg: m2 })) => assert_eq!(m1, m2),
        _ => panic!("Not equal"),
    }
}

#[test]
fn wire_text_of_each_variant() {
    assert_eq!(text_of(&hello("Hello world")), "{\"Hello\":{\"msg\":\"Hello world\"}}");
    assert_eq!(text_of(&Message::Ping), "\"Ping\"");
    assert_eq!(text_of(&Message::Pong), "\"Pong\"");
    assert_eq!(text_of(&Message::Terminate), "\"Terminate\"");
}

#[test]
fn greeting_text_is_escaped() {
    let m = hello("a\"b\\c\nd\te");
    assert_eq!(text_of(&m), "{\"Hello\":{\"msg\":\"a\\\"b\\\\c\\nd\\te\"}}");
    assert!(!m.to_wire().contains(&b'\n'));
}

#[test]
fn greeting_text_is_unescaped() {
    let got = Message::from_wire(b"{\"Hello\":{\"msg\":\"a\\nb\\u0041\"}}");
    assert_eq!(got, Some(hello("a\nbA")));
}

#[test]
fn round_trip_of_every_variant() {
    let all = vec![
        hello(""),
        hello("Hello from me"),
        hello("line\nbreak \"quoted\" \\ back \u{1F600} \u{0}"),
        hello("}}"),
        hello("\"Ping\""),
        Message::Ping,
        Message::Pong,
        Message::Terminate,
    ];
    for m in all {
        assert_eq!(Message::from_wire(&m.to_wire()), Some(m.clone()));
        let mut codec = MsgCodec::new();
        let mut buf = BytesMut::new();
        assert_eq!(codec.encode(m.clone(), &mut buf), Ok(()));
        assert_eq!(buf.last(), Some(&b'\n'));
        assert_eq!(buf.iter().filter(|b| **b == b'\n').count(), 1);
        assert_eq!(codec.decode(&mut buf), Ok(Some(m)));
        assert_eq!(buf.len(), 0);
        assert_eq!(codec.decode(&mut buf), Ok(None));
    }
}

#[test]
fn encode_appends_payload_and_delimiter() {
    let mut codec = MsgCodec::new();
    let mut buf = BytesMut::new();
    buf.extend_from_slice(b"xyz");
    codec.encode(Message::Pong, &mut buf).unwrap();
    assert_eq!(&buf[..], b"xyz\"Pong\"\n");
    codec.encode(hello("hi"), &mut buf).unwrap();
    assert_eq!(&buf[..], b"xyz\"Pong\"\n{\"Hello\":{\"msg\":\"hi\"}}\n");
}

#[test]
fn payloads_that_spell_no_message() {
    assert_eq!(Message::from_wire(b""), None);
    assert_eq!(Message::from_wire(b"Ping"), None);
    assert_eq!(Message::from_wire(b"\"ping\""), None);
    assert_eq!(Message::from_wire(b"\"Ping\" "), None);
    assert_eq!(Message::from_wire(b"{\"Hello\":{\"msg\":}}"), None);
    assert_eq!(Message::from_wire(b"{\"Hello\":{\"msg\":12}}"), None);
    assert_eq!(Message::from_wire(b"{\"Hello\":{\"msg\":\"a\"}"), None);
    assert_eq!(Message::from_wire(b"{\"Hello\":{\"msg\":\"a\",\"x\":\"b\"}}"), None);
    assert_eq!(Message::from_wire(b"{\"Hullo\":{\"msg\":\"a\"}}"), None);
    assert_eq!(Message::from_wire(b"\xff\xfe"), None);
}

#[test]
fn empty_buffer_needs_more_bytes() {
    let mut codec = MsgCodec::new();
    let mut buf = BytesMut::new();
    assert_eq!(codec.decode(&mut buf), Ok(None));
    assert_eq!(buf.len(), 0);
}

#[test]
fn lone_delimiter_is_an_error_and_is_consumed() {
    let mut codec = MsgCodec::new();
    let mut buf = BytesMut::new();
    buf.extend_from_slice(b"\n");
    assert_eq!(codec.decode(&mut buf), Err(CodecError::Malformed));
    assert_eq!(buf.len(), 0);
    assert_eq!(codec.decode(&mut buf), Ok(None));
}

#[test]
fn partial_frame_keeps_the_buffer() {
    let mut codec = MsgCodec::new();
    let mut buf = BytesMut::new();
    buf.extend_from_slice(b"\"Pi");
    assert_eq!(codec.decode(&mut buf), Ok(None));
    assert_eq!(&buf[..], b"\"Pi");
    buf.extend_from_slice(b"ng\"");
    assert_eq!(codec.decode(&mut buf), Ok(None));
    assert_eq!(&buf[..], b"\"Ping\"");
    buf.extend_from_slice(b"\n\"Po");
    assert_eq!(codec.decode(&mut buf), Ok(Some(Message::Ping)));
    assert_eq!(&buf[..], b"\"Po");
}

#[test]
fn frame_fed_byte_by_byte() {
    let m = hello("split across many writes");
    let mut whole = BytesMut::new();
    MsgCodec::new().encode(m.clone(), &mut whole).unwrap();
    let frame = whole.to_vec();

    let mut codec = MsgCodec::new();
    let mut buf = BytesMut::new();
    for (i, b) in frame.iter().enumerate() {
        buf.extend_from_slice(&[*b]);
        let got = codec.decode(&mut buf);
        if i + 1 < frame.len() {
            assert_eq!(got, Ok(None));
        } else {
            assert_eq!(got, Ok(Some(m.clone())));
        }
    }
    assert_eq!(buf.len(), 0);

    let mut at_once = MsgCodec::new();
    assert_eq!(at_once.decode(&mut whole), Ok(Some(m)));
    assert_eq!(whole.len(), 0);
}

#[test]
fn frame_fed_in_uneven_pieces() {
    let m = hello("pieces");
    let mut whole = BytesMut::new();
    MsgCodec::new().encode(m.clone(), &mut whole).unwrap();
    let frame = whole.to_vec();
    for cut in 0..=frame.len() {
        let mut codec = MsgCodec::new();
        let mut buf = BytesMut::new();
        buf.extend_from_slice(&frame[..cut]);
        let first = codec.decode(&mut buf);
        if cut == frame.len() {
            assert_eq!(first, Ok(Some(m.clone())));
            continue;
        }
        assert_eq!(first, Ok(None));
        buf.extend_from_slice(&frame[cut..]);
        assert_eq!(codec.decode(&mut buf), Ok(Some(m.clone())));
        assert_eq!(buf.len(), 0);
    }
}

#[test]
fn several_frames_decode_in_order() {
    let messages = vec![
        hello("one"),
        Message::Ping,
        Message::Pong,
        hello("two"),
        Message::Terminate,
    ];
    let mut codec = MsgCodec::new();
    let mut buf = BytesMut::new();
    for m in &messages {
        codec.encode(m.clone(), &mut buf).unwrap();
    }
    for m in &messages {
        assert_eq!(codec.decode(&mut buf), Ok(Some(m.clone())));
    }
    assert_eq!(buf.len(), 0);
    assert_eq!(codec.decode(&mut buf), Ok(None));
}

#[test]
fn damaged_frame_costs_one_error() {
    let mut codec = MsgCodec::new();
    let mut buf = BytesMut::new();
    codec.encode(Message::Ping, &mut buf).unwrap();
    buf.extend_from_slice(b"{\"Hello\":garbage\n");
    codec.encode(hello("after"), &mut buf).unwrap();
    assert_eq!(codec.decode(&mut buf), Ok(Some(Message::Ping)));
    assert_eq!(codec.decode(&mut buf), Err(CodecError::Malformed));
    assert_eq!(codec.decode(&mut buf), Ok(Some(hello("after"))));
    assert_eq!(codec.decode(&mut buf), Ok(None));
    assert_eq!(buf.len(), 0);
}

#[test]
fn cursor_beyond_a_shrunken_buffer_is_harmless() {
    let mut codec = MsgCodec::new();
    let mut buf = BytesMut::new();
    buf.extend_from_slice(b"\"Ping\"");
    assert_eq!(codec.decode(&mut buf), Ok(None));
    buf.clear();
    assert_eq!(codec.decode(&mut buf), Ok(None));
    buf.extend_from_slice(b"\"Pong\"\n");
    assert_eq!(codec.decode(&mut buf), Ok(Some(Message::Pong)));
}

#[test]
fn delimiter_search_starts_at_the_given_offset() {
    assert_eq!(find_delimiter(b"ab\ncd\n", 0), Some(2));
    assert_eq!(find_delimiter(b"ab\ncd\n", 2), Some(2));
    assert_eq!(find_delimiter(b"ab\ncd\n", 3), Some(5));
    assert_eq!(find_delimiter(b"ab\ncd\n", 6), None);
    assert_eq!(find_delimiter(b"abcd", 0), None);
    assert_eq!(find_delimiter(b"", 0), None);
    assert_eq!(find_delimiter(b"ab\n", 7), None);
}

#[test]
fn byte_helpers() {
    assert!(same_bytes(b"abc", b"abc"));
    assert!(!same_bytes(b"abc", b"abd"));
    assert!(!same_bytes(b"abc", b"ab"));
    assert!(same_bytes(b"", b""));
    let mut out = vec![1u8, 2];
    append_bytes(&mut out, &[3, 4, 5]);
    assert_eq!(out, vec![1u8, 2, 3, 4, 5]);
}
