//! Framing codec behaviour: round trips, partial input, incremental
//! assembly, decode failures, and end-of-stream handling.

use lineproto::{ByteBuffer, Frame, LengthParser, LengthSerializer, Parser, Serializer};

fn message(text: &str) -> Frame {
    Frame::Message(text.to_string())
}

fn buffer_with(bytes: &[u8]) -> ByteBuffer {
    let mut buf = ByteBuffer::new();
    buf.write_slice(bytes);
    buf
}

fn expect_message(frame: Option<Frame>) -> String {
    match frame {
        Some(Frame::Message(s)) => s,
        other => panic!("expected a message frame, got {:?}", other),
    }
}

fn expect_error(frame: Option<Frame>) -> String {
    match frame {
        Some(Frame::Error(e)) => e,
        other => panic!("expected an error frame, got {:?}", other),
    }
}

fn drain(buf: &mut ByteBuffer) -> Vec<u8> {
    buf.compact();
    let n = buf.len();
    buf.shift(n)
}

#[test]
fn round_trip_delimited() {
    let mut out = ByteBuffer::new();
    Serializer.serialize(message("hello"), &mut out);
    let mut parser = Parser;
    let got = expect_message(parser.parse(&mut out));
    assert_eq!(got, "hello");
    assert!(out.is_empty());
}

#[test]
fn round_trip_delimited_empty_message() {
    let mut out = ByteBuffer::new();
    Serializer.serialize(message(""), &mut out);
    assert_eq!(out.len(), 1);
    let got = expect_message(Parser.parse(&mut out));
    assert_eq!(got, "");
    assert!(out.is_empty());
}

#[test]
fn round_trip_delimited_multibyte_text() {
    let mut out = ByteBuffer::new();
    Serializer.serialize(message("héllo"), &mut out);
    // one two-byte character: six payload bytes plus the delimiter
    assert_eq!(out.len(), 7);
    let got = expect_message(Parser.parse(&mut out));
    assert_eq!(got, "héllo");
}

#[test]
fn delimited_wire_form() {
    let mut out = ByteBuffer::new();
    Serializer.serialize(message("abc"), &mut out);
    assert_eq!(drain(&mut out), b"abc\n".to_vec());
}

#[test]
fn error_frame_wire_form() {
    let mut out = ByteBuffer::new();
    Serializer.serialize(Frame::Error("boom".to_string()), &mut out);
    assert_eq!(drain(&mut out), b"[ERROR] boom\n".to_vec());
}

#[test]
fn done_frame_writes_nothing() {
    let mut out = ByteBuffer::new();
    Serializer.serialize(Frame::Done, &mut out);
    assert!(out.is_empty());
    let mut lp_out = ByteBuffer::new();
    LengthSerializer.serialize(Frame::Done, &mut lp_out);
    assert!(lp_out.is_empty());
}

#[test]
fn no_partial_consumption_delimited() {
    let whole = b"hello\n";
    for n in 1..whole.len() {
        let mut buf = buffer_with(&whole[..n]);
        assert!(Parser.parse(&mut buf).is_none());
        assert_eq!(buf.len(), n);
        assert_eq!(drain(&mut buf), whole[..n].to_vec());
    }
}

#[test]
fn incremental_assembly_delimited() {
    let whole = b"hello\n";
    for split in 0..whole.len() {
        let mut parser = Parser;
        let mut buf = buffer_with(&whole[..split]);
        let first = parser.parse(&mut buf);
        assert!(first.is_none());
        buf.write_slice(&whole[split..]);
        let got = expect_message(parser.parse(&mut buf));
        assert_eq!(got, "hello");
        assert!(buf.is_empty());
    }
}

#[test]
fn parse_consumes_one_frame_at_a_time() {
    let mut buf = buffer_with(b"one\ntwo\nthree\n");
    let mut parser = Parser;
    assert_eq!(expect_message(parser.parse(&mut buf)), "one");
    assert_eq!(expect_message(parser.parse(&mut buf)), "two");
    assert_eq!(expect_message(parser.parse(&mut buf)), "three");
    assert!(parser.parse(&mut buf).is_none());
    assert!(buf.is_empty());
}

#[test]
fn invalid_utf8_line_parses_to_error_frame() {
    let mut buf = buffer_with(&[0xFF, 0xFE, b'\n']);
    let desc = expect_error(Parser.parse(&mut buf));
    assert_eq!(desc, "invalid string");
    assert!(buf.is_empty());
}

#[test]
fn fragmented_buffer_is_compacted_before_scanning() {
    let mut buf = ByteBuffer::new();
    buf.write_slice(b"he");
    buf.write_slice(b"ll");
    buf.write_slice(b"o\nrest");
    assert!(!buf.is_compact());
    let got = expect_message(Parser.parse(&mut buf));
    assert_eq!(got, "hello");
    assert_eq!(drain(&mut buf), b"rest".to_vec());
}

#[test]
fn delimited_done_on_drained_buffer() {
    let mut buf = ByteBuffer::new();
    let frame = Parser.done(&mut buf);
    assert!(matches!(frame, Some(Frame::Done)));
}

#[test]
fn length_prefixed_wire_form() {
    let mut out = ByteBuffer::new();
    LengthSerializer.serialize(message("abc"), &mut out);
    assert_eq!(drain(&mut out), vec![3, 0, 0, 0, b'a', b'b', b'c']);
}

#[test]
fn length_prefixed_error_wire_form() {
    let mut out = ByteBuffer::new();
    LengthSerializer.serialize(Frame::Error("bad".to_string()), &mut out);
    let mut expected = vec![11, 0, 0, 0];
    expected.extend_from_slice(b"[ERROR] bad");
    assert_eq!(drain(&mut out), expected);
}

#[test]
fn round_trip_length_prefixed() {
    let mut out = ByteBuffer::new();
    LengthSerializer.serialize(message("hello"), &mut out);
    let mut parser = LengthParser::new();
    // first call consumes the header only
    assert!(parser.parse(&mut out).is_none());
    let got = expect_message(parser.parse(&mut out));
    assert_eq!(got, "hello");
    assert!(out.is_empty());
}

#[test]
fn length_prefixed_header_alone_produces_no_frame() {
    let mut buf = buffer_with(&[5, 0, 0, 0]);
    let mut parser = LengthParser::new();
    assert!(parser.parse(&mut buf).is_none());
    assert!(buf.is_empty());
    // the body has not arrived: still no frame, nothing consumed
    assert!(parser.parse(&mut buf).is_none());
}

#[test]
fn length_prefixed_partial_header_is_left_buffered() {
    let mut buf = buffer_with(&[5, 0]);
    let mut parser = LengthParser::new();
    assert!(parser.parse(&mut buf).is_none());
    assert_eq!(buf.len(), 2);
}

#[test]
fn incremental_assembly_length_prefixed() {
    let whole: Vec<u8> = vec![5, 0, 0, 0, b'h', b'e', b'l', b'l', b'o'];
    for split in 0..whole.len() {
        let mut parser = LengthParser::new();
        let mut buf = buffer_with(&whole[..split]);
        // drive until blocked on the partial input: no frame may appear
        while parser.parse(&mut buf).is_some() {
            panic!("frame produced from a partial frame");
        }
        buf.write_slice(&whole[split..]);
        let mut got = None;
        for _ in 0..3 {
            if let Some(frame) = parser.parse(&mut buf) {
                got = Some(frame);
                break;
            }
        }
        assert_eq!(expect_message(got), "hello");
        assert!(buf.is_empty());
    }
}

#[test]
fn length_prefixed_invalid_utf8_parses_to_error_frame() {
    let mut buf = buffer_with(&[2, 0, 0, 0, 0xFF, 0xFE]);
    let mut parser = LengthParser::new();
    assert!(parser.parse(&mut buf).is_none());
    let desc = expect_error(parser.parse(&mut buf));
    assert_eq!(desc, "invalid string");
    // serializing the surfaced error produces the error wire form
    let mut out = ByteBuffer::new();
    Serializer.serialize(Frame::Error(desc), &mut out);
    assert_eq!(drain(&mut out), b"[ERROR] invalid string\n".to_vec());
}

#[test]
fn length_prefixed_clean_close_is_done() {
    let mut buf = ByteBuffer::new();
    let mut parser = LengthParser::new();
    let frame = parser.done(&mut buf);
    assert!(matches!(frame, Some(Frame::Done)));
}

#[test]
fn length_prefixed_close_mid_frame_is_truncated() {
    let mut buf = buffer_with(&[5, 0, 0, 0, b'h', b'i']);
    let mut parser = LengthParser::new();
    assert!(parser.parse(&mut buf).is_none());
    let desc = expect_error(parser.done(&mut buf));
    assert_eq!(desc, "truncated frame");
}

#[test]
fn length_prefixed_close_with_partial_header_is_truncated() {
    let mut buf = buffer_with(&[5, 0]);
    let mut parser = LengthParser::new();
    assert!(parser.parse(&mut buf).is_none());
    let desc = expect_error(parser.done(&mut buf));
    assert_eq!(desc, "truncated frame");
}

#[test]
fn length_prefixed_empty_message_round_trip() {
    let mut out = ByteBuffer::new();
    LengthSerializer.serialize(message(""), &mut out);
    assert_eq!(out.len(), 4);
    let mut parser = LengthParser::new();
    assert!(parser.parse(&mut out).is_none());
    let got = expect_message(parser.parse(&mut out));
    assert_eq!(got, "");
}
