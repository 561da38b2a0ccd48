//! The delimiter-framed codec: one UTF-8 message per line, terminated by a
//! single delimiter byte. The parser is stateless between calls; it re-scans
//! the buffer each time and consumes bytes only when a complete frame is
//! present.

use crate::buffer::ByteBuffer;
use crate::frame::{Frame, FrameView};
use crate::text::{bytes_to_string, invalid_text, lemma_delimiter_in_encoding, DELIMITER};
use vstd::prelude::*;
use vstd::utf8::{
    decode_utf8, encode_utf8, encode_utf8_decode_utf8, encode_utf8_valid_utf8, valid_utf8,
};

verus! {

/// Index of the first delimiter byte in `b`, or `b.len()` when there is
/// none.
pub open spec fn first_delimiter(b: Seq<u8>) -> int
    decreases b.len(),
{
    if b.len() == 0 {
        0
    } else if b[0] == DELIMITER {
        0
    } else {
        1 + first_delimiter(b.drop_first())
    }
}

/// What [`first_delimiter`] returns: the position of a delimiter with none
/// before it, or the length of the sequence.
pub proof fn lemma_first_delimiter(b: Seq<u8>)
    ensures
        0 <= first_delimiter(b) <= b.len(),
        first_delimiter(b) < b.len() ==> b[first_delimiter(b)] == DELIMITER,
        forall|j: int| 0 <= j < first_delimiter(b) ==> b[j] != DELIMITER,
    decreases b.len(),
{
    if b.len() == 0 {
    } else if b[0] == DELIMITER {
    } else {
        lemma_first_delimiter(b.drop_first());
        assert forall|j: int| 0 <= j < first_delimiter(b) implies b[j] != DELIMITER by {
            if j > 0 {
                assert(b.drop_first()[j - 1] != DELIMITER);
            }
        }
    }
}

/// Any position that carries the first delimiter, or the length when no
/// position does, is what [`first_delimiter`] returns.
pub proof fn lemma_first_delimiter_unique(b: Seq<u8>, n: int)
    requires
        0 <= n <= b.len(),
        forall|j: int| 0 <= j < n ==> b[j] != DELIMITER,
        n < b.len() ==> b[n] == DELIMITER,
    ensures
        first_delimiter(b) == n,
    decreases b.len(),
{
    if b.len() == 0 {
    } else if b[0] == DELIMITER {
        assert(n == 0);
    } else {
        assert(n >= 1);
        assert(forall|j: int| 0 <= j < n - 1 ==> b.drop_first()[j] == b[j + 1]);
        lemma_first_delimiter_unique(b.drop_first(), n - 1);
    }
}

/// The frame one decoded line yields: its text when the bytes are valid
/// UTF-8, otherwise a protocol error to surface to the peer.
pub open spec fn line_frame(line: Seq<u8>) -> FrameView {
    if valid_utf8(line) {
        FrameView::Message(decode_utf8(line))
    } else {
        FrameView::Error("invalid string"@)
    }
}

/// The frame a parse call on buffer contents `b` produces, if any.
pub open spec fn delim_parse_result(b: Seq<u8>) -> Option<FrameView> {
    if first_delimiter(b) == b.len() {
        None
    } else {
        Some(line_frame(b.take(first_delimiter(b))))
    }
}

/// The bytes a parse call on buffer contents `b` leaves in the buffer.
pub open spec fn delim_parse_rest(b: Seq<u8>) -> Seq<u8> {
    if first_delimiter(b) == b.len() {
        b
    } else {
        b.skip(first_delimiter(b) + 1)
    }
}

/// The wire bytes of one frame under delimiter framing: the message text
/// followed by the delimiter; an error as a fixed textual prefix, the
/// description, and the delimiter; nothing for `Done`.
pub open spec fn delim_frame_bytes(f: FrameView) -> Seq<u8> {
    match f {
        FrameView::Message(s) => encode_utf8(s) + seq![DELIMITER],
        FrameView::Error(e) => encode_utf8("[ERROR] "@) + encode_utf8(e) + seq![DELIMITER],
        FrameView::Done => Seq::empty(),
    }
}

/// The view of a parser's optional result.
pub open spec fn opt_frame_view(r: Option<Frame>) -> Option<FrameView> {
    match r {
        Some(f) => Some(f@),
        None => None,
    }
}

/// The incremental delimiter-framed parser. It keeps no state between
/// calls: resumption works because an incomplete frame is left in the
/// buffer untouched.
pub struct Parser;

impl Parser {
    /// Extract the next complete frame from the buffer, consuming exactly
    /// its bytes, including the delimiter. When no delimiter has arrived
    /// yet, return `None` and leave the buffer exactly as it was.
    pub fn parse(&mut self, buf: &mut ByteBuffer) -> (r: Option<Frame>)
        requires
            old(buf).wf(),
        ensures
            final(buf).wf(),
            opt_frame_view(r) == delim_parse_result(old(buf)@),
            final(buf)@ == delim_parse_rest(old(buf)@),
    {
        if !buf.is_compact() {
            buf.compact();
        }
        let found = buf.find(DELIMITER);
        match found {
            None => {
                proof {
                    lemma_first_delimiter_unique(buf@, buf@.len() as int);
                }
                None
            },
            Some(n) => {
                proof {
                    lemma_first_delimiter_unique(buf@, n as int);
                }
                let ghost b = buf@;
                let line = buf.shift(n);
                let _delim = buf.shift(1);
                proof {
                    assert(buf@ =~= b.skip(n + 1));
                }
                match bytes_to_string(line.as_slice()) {
                    Some(s) => {
                        proof {
                            encode_utf8_decode_utf8(s@);
                        }
                        Some(Frame::Message(s))
                    },
                    None => Some(Frame::Error(invalid_text())),
                }
            },
        }
    }

    /// End of stream: the sentinel frame, produced once. The framing
    /// invariant demands that the residual buffer is already drained when
    /// the driver reports the close; calling this with undrained bytes is a
    /// programming error, so the contract excludes it.
    pub fn done(&mut self, buf: &mut ByteBuffer) -> (r: Option<Frame>)
        requires
            old(buf).wf(),
            old(buf)@.len() == 0,
        ensures
            *final(buf) == *old(buf),
            r matches Some(f) && f@ == FrameView::Done,
    {
        let _ = buf;
        Some(Frame::Done)
    }
}

/// The delimiter-framed serializer: appends a frame's wire bytes to the
/// outbound buffer. It cannot fail; the dispatch layer has already rejected
/// any payload that carries the delimiter.
pub struct Serializer;

impl Serializer {
    /// Append the frame's wire form to `buf`.
    pub fn serialize(&mut self, frame: Frame, buf: &mut ByteBuffer)
        requires
            old(buf).wf(),
            old(buf)@.len() + delim_frame_bytes(frame@).len() <= usize::MAX,
        ensures
            final(buf).wf(),
            final(buf)@ == old(buf)@ + delim_frame_bytes(frame@),
    {
        let ghost b = buf@;
        match frame {
            Frame::Message(text) => {
                buf.write_slice(text.as_str().as_bytes());
                buf.write_byte(DELIMITER);
                proof {
                    assert(buf@ =~= b + delim_frame_bytes(FrameView::Message(text@)));
                }
            },
            Frame::Error(e) => {
                let prefix: &str = "[ERROR] ";
                buf.write_slice(prefix.as_bytes());
                buf.write_slice(e.as_str().as_bytes());
                buf.write_byte(DELIMITER);
                proof {
                    assert(buf@ =~= b + delim_frame_bytes(FrameView::Error(e@)));
                }
            },
            Frame::Done => {
                proof {
                    assert(buf@ =~= b + delim_frame_bytes(FrameView::Done));
                }
            },
        }
    }
}

/// The prefix of a message frame's wire bytes never holds a delimiter: only
/// the terminator byte does.
proof fn lemma_message_frame_shape(s: Seq<char>)
    requires
        !s.contains('\n'),
    ensures
        ({
            let b = delim_frame_bytes(FrameView::Message(s));
            &&& b.len() == encode_utf8(s).len() + 1
            &&& first_delimiter(b) == encode_utf8(s).len()
        }),
{
    let e = encode_utf8(s);
    let b = delim_frame_bytes(FrameView::Message(s));
    lemma_delimiter_in_encoding(s);
    assert forall|j: int| 0 <= j < e.len() implies b[j] != DELIMITER by {
        assert(b[j] == e[j]);
        if e[j] == DELIMITER {
            assert(e.contains(DELIMITER));
        }
    }
    assert(b[e.len() as int] == DELIMITER);
    lemma_first_delimiter_unique(b, e.len() as int);
}

/// Law (round trip): a message without the delimiter character, serialized
/// and then parsed, comes back exactly, and the frame's bytes are consumed
/// in full.
pub proof fn lemma_round_trip(s: Seq<char>)
    requires
        !s.contains('\n'),
    ensures
        delim_parse_result(delim_frame_bytes(FrameView::Message(s))) == Some(
            FrameView::Message(s),
        ),
        delim_parse_rest(delim_frame_bytes(FrameView::Message(s))) == Seq::<u8>::empty(),
{
    let e = encode_utf8(s);
    let b = delim_frame_bytes(FrameView::Message(s));
    lemma_message_frame_shape(s);
    assert(b.take(e.len() as int) =~= e);
    encode_utf8_valid_utf8(s);
    encode_utf8_decode_utf8(s);
    assert(b.skip(e.len() as int + 1) =~= Seq::<u8>::empty());
}

/// Law (no partial consumption): feeding any proper prefix of a complete
/// message frame parses to nothing and leaves the buffer contents exactly
/// as they were fed.
pub proof fn lemma_no_partial_consumption(s: Seq<char>, k: int)
    requires
        !s.contains('\n'),
        0 <= k < delim_frame_bytes(FrameView::Message(s)).len(),
    ensures
        delim_parse_result(delim_frame_bytes(FrameView::Message(s)).take(k)) is None,
        delim_parse_rest(delim_frame_bytes(FrameView::Message(s)).take(k)) == delim_frame_bytes(
            FrameView::Message(s),
        ).take(k),
{
    let b = delim_frame_bytes(FrameView::Message(s));
    let p = b.take(k);
    lemma_message_frame_shape(s);
    assert forall|j: int| 0 <= j < k implies p[j] != DELIMITER by {
        assert(p[j] == b[j]);
        lemma_first_delimiter(b);
    }
    lemma_first_delimiter_unique(p, k);
}

/// Law (incremental assembly): a complete message frame split at any byte
/// offset and fed across two parse calls yields the same message as feeding
/// it whole. The first call consumes nothing, so once the remainder arrives
/// the buffer holds the whole frame, and the second call produces the
/// message.
pub proof fn lemma_incremental_assembly(s: Seq<char>, k: int)
    requires
        !s.contains('\n'),
        0 <= k < delim_frame_bytes(FrameView::Message(s)).len(),
    ensures
        ({
            let b = delim_frame_bytes(FrameView::Message(s));
            &&& delim_parse_result(b.take(k)) is None
            &&& delim_parse_rest(b.take(k)) == b.take(k)
            &&& b.take(k) + b.skip(k) == b
            &&& delim_parse_result(b) == Some(FrameView::Message(s))
            &&& delim_parse_rest(b) == Seq::<u8>::empty()
        }),
{
    let b = delim_frame_bytes(FrameView::Message(s));
    lemma_no_partial_consumption(s, k);
    assert(b.take(k) + b.skip(k) =~= b);
    lemma_round_trip(s);
}

/// The wire bytes of a sequence of message frames, back to back.
pub open spec fn serialize_messages(msgs: Seq<Seq<char>>) -> Seq<u8>
    decreases msgs.len(),
{
    if msgs.len() == 0 {
        Seq::empty()
    } else {
        delim_frame_bytes(FrameView::Message(msgs[0])) + serialize_messages(msgs.drop_first())
    }
}

/// All frames a byte stream yields when parsed to exhaustion, in order.
pub open spec fn parse_messages(b: Seq<u8>) -> Seq<FrameView>
    decreases b.len(),
    via parse_messages_decreases
{
    if first_delimiter(b) == b.len() {
        Seq::empty()
    } else {
        seq![line_frame(b.take(first_delimiter(b)))] + parse_messages(
            b.skip(first_delimiter(b) + 1),
        )
    }
}

#[via_fn]
proof fn parse_messages_decreases(b: Seq<u8>) {
    lemma_first_delimiter(b);
}

/// Law (ordering): parsing the concatenated wire bytes of a sequence of
/// messages yields exactly those messages, in the order they were
/// serialized. Framing neither reorders, drops, nor invents frames, which
/// is what lets positional request/response correlation work.
pub proof fn lemma_pipeline_order(msgs: Seq<Seq<char>>)
    requires
        forall|i: int| 0 <= i < msgs.len() ==> !(#[trigger] msgs[i]).contains('\n'),
    ensures
        parse_messages(serialize_messages(msgs)) == Seq::new(
            msgs.len(),
            |i: int| FrameView::Message(msgs[i]),
        ),
    decreases msgs.len(),
{
    if msgs.len() == 0 {
        lemma_first_delimiter(serialize_messages(msgs));
        assert(parse_messages(serialize_messages(msgs)) =~= Seq::new(
            msgs.len(),
            |i: int| FrameView::Message(msgs[i]),
        ));
    } else {
        let s = msgs[0];
        let e = encode_utf8(s);
        let f = delim_frame_bytes(FrameView::Message(s));
        let rest = serialize_messages(msgs.drop_first());
        let b = serialize_messages(msgs);
        lemma_message_frame_shape(s);
        lemma_delimiter_in_encoding(s);
        assert forall|j: int| 0 <= j < e.len() implies b[j] != DELIMITER by {
            assert(b[j] == f[j]);
            lemma_first_delimiter(f);
        }
        assert(b[e.len() as int] == DELIMITER);
        lemma_first_delimiter_unique(b, e.len() as int);
        assert(b.take(e.len() as int) =~= e);
        encode_utf8_valid_utf8(s);
        encode_utf8_decode_utf8(s);
        assert(b.skip(e.len() as int + 1) =~= rest);
        lemma_pipeline_order(msgs.drop_first());
        assert(parse_messages(b) =~= Seq::new(msgs.len(), |i: int| FrameView::Message(msgs[i])));
    }
}

} // verus!
