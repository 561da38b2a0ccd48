//! The length-prefixed codec: each message is preceded by a 4-byte
//! little-endian length header and carries no terminator. The parser is an
//! explicit two-state machine persisted across calls, because the header
//! and the body may arrive separately and the core never blocks.

use crate::buffer::ByteBuffer;
use crate::frame::{Frame, FrameView};
use crate::framed_transport::{line_frame, opt_frame_view};
use crate::text::{bytes_to_string, invalid_text, truncated_text};
use vstd::prelude::*;
use vstd::utf8::{encode_utf8, encode_utf8_decode_utf8, encode_utf8_valid_utf8};

verus! {

/// The little-endian wire form of a 32-bit length.
pub open spec fn le32_bytes(n: u32) -> Seq<u8> {
    seq![
        (n & 0xFF) as u8,
        ((n >> 8) & 0xFF) as u8,
        ((n >> 16) & 0xFF) as u8,
        ((n >> 24) & 0xFF) as u8,
    ]
}

/// The 32-bit length four little-endian wire bytes carry.
pub open spec fn le32_value(b0: u8, b1: u8, b2: u8, b3: u8) -> u32 {
    (b0 as u32) | ((b1 as u32) << 8) | ((b2 as u32) << 16) | ((b3 as u32) << 24)
}

/// Reading back the wire form of a length yields the length.
pub proof fn lemma_le32_read_written(n: u32)
    ensures
        le32_value(
            (n & 0xFF) as u8,
            ((n >> 8) & 0xFF) as u8,
            ((n >> 16) & 0xFF) as u8,
            ((n >> 24) & 0xFF) as u8,
        ) == n,
{
    let b0 = (n & 0xFF) as u8;
    let b1 = ((n >> 8) & 0xFF) as u8;
    let b2 = ((n >> 16) & 0xFF) as u8;
    let b3 = ((n >> 24) & 0xFF) as u8;
    assert((b0 as u32) | ((b1 as u32) << 8) | ((b2 as u32) << 16) | ((b3 as u32) << 24) == n)
        by (bit_vector)
        requires
            b0 == (n & 0xFF) as u8,
            b1 == ((n >> 8) & 0xFF) as u8,
            b2 == ((n >> 16) & 0xFF) as u8,
            b3 == ((n >> 24) & 0xFF) as u8,
    ;
}

/// Writing back a length read from four wire bytes yields those bytes.
pub proof fn lemma_le32_write_read(b0: u8, b1: u8, b2: u8, b3: u8)
    ensures
        le32_bytes(le32_value(b0, b1, b2, b3)) == seq![b0, b1, b2, b3],
{
    let n = le32_value(b0, b1, b2, b3);
    assert((n & 0xFF) as u8 == b0 && ((n >> 8) & 0xFF) as u8 == b1 && ((n >> 16) & 0xFF) as u8
        == b2 && ((n >> 24) & 0xFF) as u8 == b3)
        by (bit_vector)
        requires
            n == (b0 as u32) | ((b1 as u32) << 8) | ((b2 as u32) << 16) | ((b3 as u32) << 24),
    ;
    assert(le32_bytes(n) =~= seq![b0, b1, b2, b3]);
}

/// The state the length-prefixed parser persists between calls.
#[derive(Clone, Copy)]
pub enum ParserState {
    /// No length header consumed yet.
    AwaitingLength,
    /// Header consumed; `length` bytes of payload still to arrive.
    AwaitingBody { length: u32 },
}

/// One parse call as a function of the state and the buffered bytes: the
/// next state, the frame produced (if any), and the bytes left buffered.
pub open spec fn lp_step(st: ParserState, b: Seq<u8>) -> (ParserState, Option<FrameView>, Seq<u8>) {
    match st {
        ParserState::AwaitingLength => {
            if b.len() < 4 {
                (st, None::<FrameView>, b)
            } else {
                (
                    ParserState::AwaitingBody { length: le32_value(b[0], b[1], b[2], b[3]) },
                    None::<FrameView>,
                    b.skip(4),
                )
            }
        },
        ParserState::AwaitingBody { length } => {
            if b.len() < length {
                (st, None::<FrameView>, b)
            } else {
                (
                    ParserState::AwaitingLength,
                    Some(line_frame(b.take(length as int))),
                    b.skip(length as int),
                )
            }
        },
    }
}

/// The length-prefixed incremental parser.
pub struct LengthParser {
    pub state: ParserState,
}

impl LengthParser {
    pub fn new() -> (p: LengthParser)
        ensures
            p.state is AwaitingLength,
    {
        LengthParser { state: ParserState::AwaitingLength }
    }

    /// Advance the state machine by one call: consume the 4-byte header
    /// once it has fully arrived (producing no frame yet), or consume the
    /// body once it has fully arrived and produce its frame. When the next
    /// unit is still incomplete, consume nothing.
    pub fn parse(&mut self, buf: &mut ByteBuffer) -> (r: Option<Frame>)
        requires
            old(buf).wf(),
        ensures
            final(buf).wf(),
            (final(self).state, opt_frame_view(r), final(buf)@) == lp_step(
                old(self).state,
                old(buf)@,
            ),
    {
        match self.state {
            ParserState::AwaitingLength => {
                if buf.len() < 4 {
                    return None;
                }
                if !buf.is_compact() {
                    buf.compact();
                }
                let header = buf.shift(4);
                let n = (header[0] as u32) | ((header[1] as u32) << 8) | (
                (header[2] as u32) << 16) | ((header[3] as u32) << 24);
                self.state = ParserState::AwaitingBody { length: n };
                None
            },
            ParserState::AwaitingBody { length } => {
                let len = length as usize;
                if buf.len() < len {
                    return None;
                }
                if !buf.is_compact() {
                    buf.compact();
                }
                let body = buf.shift(len);
                self.state = ParserState::AwaitingLength;
                match bytes_to_string(body.as_slice()) {
                    Some(s) => {
                        proof {
                            encode_utf8_decode_utf8(s@);
                        }
                        Some(Frame::Message(s))
                    },
                    None => Some(Frame::Error(invalid_text())),
                }
            },
        }
    }

    /// End of stream. A close that arrives mid-frame — a header consumed
    /// with its body missing, or a partial header still buffered — is a
    /// truncated message: it is surfaced as an error frame for the
    /// outstanding caller rather than silently discarded.
    pub fn done(&mut self, buf: &mut ByteBuffer) -> (r: Option<Frame>)
        requires
            old(buf).wf(),
        ensures
            *final(buf) == *old(buf),
            *final(self) == *old(self),
            ({
                let clean = old(self).state is AwaitingLength && old(buf)@.len() == 0;
                &&& clean ==> (r matches Some(f) && f@ == FrameView::Done)
                &&& !clean ==> (r matches Some(f) && f@ == FrameView::Error("truncated frame"@))
            }),
    {
        let clean = match self.state {
            ParserState::AwaitingLength => buf.is_empty(),
            ParserState::AwaitingBody { .. } => false,
        };
        if clean {
            Some(Frame::Done)
        } else {
            Some(Frame::Error(truncated_text()))
        }
    }
}

/// The wire bytes of one frame under length prefixing: a 4-byte
/// little-endian count of the payload bytes, then the payload; an error
/// carries the fixed textual prefix and the description as its payload;
/// `Done` writes nothing.
pub open spec fn lp_frame_bytes(f: FrameView) -> Seq<u8> {
    match f {
        FrameView::Message(s) => le32_bytes(encode_utf8(s).len() as u32) + encode_utf8(s),
        FrameView::Error(e) => {
            let body = encode_utf8("[ERROR] "@) + encode_utf8(e);
            le32_bytes(body.len() as u32) + body
        },
        FrameView::Done => Seq::empty(),
    }
}

/// The payload length a frame would put in its header.
pub open spec fn lp_body_len(f: FrameView) -> int {
    match f {
        FrameView::Message(s) => encode_utf8(s).len() as int,
        FrameView::Error(e) => encode_utf8("[ERROR] "@).len() + encode_utf8(e).len() as int,
        FrameView::Done => 0,
    }
}

/// The length-prefixed serializer.
pub struct LengthSerializer;

impl LengthSerializer {
    /// Append the frame's wire form to `buf`. The payload length must fit
    /// the fixed-width header.
    pub fn serialize(&mut self, frame: Frame, buf: &mut ByteBuffer)
        requires
            old(buf).wf(),
            lp_body_len(frame@) <= u32::MAX,
            old(buf)@.len() + lp_frame_bytes(frame@).len() <= usize::MAX,
        ensures
            final(buf).wf(),
            final(buf)@ == old(buf)@ + lp_frame_bytes(frame@),
    {
        let ghost b = buf@;
        match frame {
            Frame::Message(text) => {
                let bytes = text.as_str().as_bytes();
                let header = le32_header(bytes.len() as u32);
                buf.write_slice(header.as_slice());
                buf.write_slice(bytes);
                proof {
                    assert(buf@ =~= b + lp_frame_bytes(FrameView::Message(text@)));
                }
            },
            Frame::Error(e) => {
                let prefix: &str = "[ERROR] ";
                let pbytes = prefix.as_bytes();
                let ebytes = e.as_str().as_bytes();
                let header = le32_header((pbytes.len() + ebytes.len()) as u32);
                buf.write_slice(header.as_slice());
                buf.write_slice(pbytes);
                buf.write_slice(ebytes);
                proof {
                    assert(buf@ =~= b + lp_frame_bytes(FrameView::Error(e@)));
                }
            },
            Frame::Done => {
                proof {
                    assert(buf@ =~= b + lp_frame_bytes(FrameView::Done));
                }
            },
        }
    }
}

/// The four header bytes announcing a payload of `n` bytes.
fn le32_header(n: u32) -> (v: Vec<u8>)
    ensures
        v@ == le32_bytes(n),
{
    proof {
        assert(n & 0xFF < 256 && (n >> 8) & 0xFF < 256 && (n >> 16) & 0xFF < 256 && (n >> 24)
            & 0xFF < 256) by (bit_vector);
    }
    let mut v: Vec<u8> = Vec::new();
    v.push((n & 0xFF) as u8);
    v.push(((n >> 8) & 0xFF) as u8);
    v.push(((n >> 16) & 0xFF) as u8);
    v.push(((n >> 24) & 0xFF) as u8);
    proof {
        assert(v@ =~= le32_bytes(n));
    }
    v
}

/// The header bytes the parser has absorbed into its state: what must be
/// counted to see that an unproductive parse call loses nothing.
pub open spec fn lp_pending_bytes(st: ParserState) -> Seq<u8> {
    match st {
        ParserState::AwaitingLength => Seq::empty(),
        ParserState::AwaitingBody { length } => le32_bytes(length),
    }
}

/// Law (no partial consumption): a parse call that produces no frame loses
/// no byte of the stream — the header held in the state plus the bytes left
/// buffered equal the header plus the bytes that were fed. In particular a
/// call in `AwaitingBody` with an incomplete body leaves the buffer
/// untouched.
pub proof fn lemma_lp_no_partial_consumption(st: ParserState, b: Seq<u8>)
    ensures
        lp_step(st, b).1 is None ==> lp_pending_bytes(lp_step(st, b).0) + lp_step(st, b).2
            == lp_pending_bytes(st) + b,
{
    match st {
        ParserState::AwaitingLength => {
            if b.len() >= 4 {
                lemma_le32_write_read(b[0], b[1], b[2], b[3]);
                assert(le32_bytes(le32_value(b[0], b[1], b[2], b[3])) + b.skip(4) =~= Seq::empty()
                    + b);
            } else {
                assert(Seq::<u8>::empty() + b =~= Seq::<u8>::empty() + b);
            }
        },
        ParserState::AwaitingBody { length } => {
        },
    }
}

/// Whether a parse call can make no progress: the next unit is incomplete.
pub open spec fn lp_blocked(st: ParserState, b: Seq<u8>) -> bool {
    match st {
        ParserState::AwaitingLength => b.len() < 4,
        ParserState::AwaitingBody { length } => b.len() < length,
    }
}

/// Parse calls repeated until one makes no progress: the final state, every
/// frame produced in order, and the bytes left buffered.
pub open spec fn lp_run(st: ParserState, b: Seq<u8>) -> (ParserState, Seq<FrameView>, Seq<u8>)
    decreases b.len(), (if st is AwaitingBody { 1int } else { 0 }),
{
    if lp_blocked(st, b) {
        (st, Seq::empty(), b)
    } else {
        let stepped = lp_step(st, b);
        let rest = lp_run(stepped.0, stepped.2);
        match stepped.1 {
            None => rest,
            Some(f) => (rest.0, seq![f] + rest.1, rest.2),
        }
    }
}

/// Law (round trip): a message whose encoding fits the length header,
/// serialized and then parsed to exhaustion, comes back exactly: the header
/// call produces no frame, the body call produces the message, and the
/// frame's bytes are consumed in full.
pub proof fn lemma_lp_round_trip(s: Seq<char>)
    requires
        encode_utf8(s).len() <= u32::MAX,
    ensures
        lp_run(ParserState::AwaitingLength, lp_frame_bytes(FrameView::Message(s))) == (
            ParserState::AwaitingLength,
            seq![FrameView::Message(s)],
            Seq::<u8>::empty(),
        ),
{
    let e = encode_utf8(s);
    let n = e.len() as u32;
    let b = lp_frame_bytes(FrameView::Message(s));
    assert(b == le32_bytes(n) + e);
    assert(b.len() == 4 + e.len());
    lemma_le32_read_written(n);
    assert(le32_value(b[0], b[1], b[2], b[3]) == n);
    let afterheader = b.skip(4);
    assert(afterheader =~= e);
    encode_utf8_valid_utf8(s);
    encode_utf8_decode_utf8(s);
    assert(e.take(n as int) =~= e);
    assert(e.skip(n as int) =~= Seq::<u8>::empty());
    assert(lp_run(ParserState::AwaitingLength, Seq::<u8>::empty()) == (
        ParserState::AwaitingLength,
        Seq::<FrameView>::empty(),
        Seq::<u8>::empty(),
    ));
    assert(lp_run(ParserState::AwaitingBody { length: n }, e) == (
        ParserState::AwaitingLength,
        seq![FrameView::Message(s)] + Seq::<FrameView>::empty(),
        Seq::<u8>::empty(),
    ));
    assert(seq![FrameView::Message(s)] + Seq::<FrameView>::empty() =~= seq![
        FrameView::Message(s),
    ]);
}

/// The wire bytes of a sequence of message frames, back to back.
pub open spec fn lp_serialize_messages(msgs: Seq<Seq<char>>) -> Seq<u8>
    decreases msgs.len(),
{
    if msgs.len() == 0 {
        Seq::empty()
    } else {
        lp_frame_bytes(FrameView::Message(msgs[0])) + lp_serialize_messages(msgs.drop_first())
    }
}

/// Law (ordering): parsing the concatenated wire bytes of a sequence of
/// messages to exhaustion yields exactly those messages, in the order they
/// were serialized, ending back in the initial state with nothing
/// buffered. Framing neither reorders, drops, nor invents frames.
pub proof fn lemma_lp_pipeline_order(msgs: Seq<Seq<char>>)
    requires
        forall|i: int| 0 <= i < msgs.len() ==> (#[trigger] encode_utf8(msgs[i])).len()
            <= u32::MAX,
    ensures
        lp_run(ParserState::AwaitingLength, lp_serialize_messages(msgs)) == (
            ParserState::AwaitingLength,
            Seq::new(msgs.len(), |i: int| FrameView::Message(msgs[i])),
            Seq::<u8>::empty(),
        ),
    decreases msgs.len(),
{
    let b = lp_serialize_messages(msgs);
    if msgs.len() == 0 {
        assert(lp_run(ParserState::AwaitingLength, b) == (
            ParserState::AwaitingLength,
            Seq::<FrameView>::empty(),
            Seq::<u8>::empty(),
        ));
        assert(Seq::<FrameView>::empty() =~= Seq::new(
            msgs.len(),
            |i: int| FrameView::Message(msgs[i]),
        ));
    } else {
        let s = msgs[0];
        let e = encode_utf8(s);
        let n = e.len() as u32;
        let rest = lp_serialize_messages(msgs.drop_first());
        assert(b == (le32_bytes(n) + e) + rest);
        assert(b.len() == 4 + e.len() + rest.len());
        lemma_le32_read_written(n);
        assert(b[0] == le32_bytes(n)[0] && b[1] == le32_bytes(n)[1] && b[2] == le32_bytes(n)[2]
            && b[3] == le32_bytes(n)[3]);
        assert(le32_value(b[0], b[1], b[2], b[3]) == n);
        let afterheader = b.skip(4);
        assert(afterheader =~= e + rest);
        assert(afterheader.take(n as int) =~= e);
        assert(afterheader.skip(n as int) =~= rest);
        encode_utf8_valid_utf8(s);
        encode_utf8_decode_utf8(s);
        lemma_lp_pipeline_order(msgs.drop_first());
        assert(lp_run(ParserState::AwaitingBody { length: n }, afterheader) == (
            ParserState::AwaitingLength,
            seq![FrameView::Message(s)] + Seq::new(
                msgs.drop_first().len(),
                |i: int| FrameView::Message(msgs.drop_first()[i]),
            ),
            Seq::<u8>::empty(),
        ));
        assert(seq![FrameView::Message(s)] + Seq::new(
            msgs.drop_first().len(),
            |i: int| FrameView::Message(msgs.drop_first()[i]),
        ) =~= Seq::new(msgs.len(), |i: int| FrameView::Message(msgs[i])));
    }
}

/// Law (incremental assembly): a complete frame split at any byte offset
/// and fed across two rounds of parse calls yields the same single message
/// as feeding it whole: the first round produces no frame and keeps every
/// byte, and once the remainder arrives the next round produces the
/// message and drains the buffer.
pub proof fn lemma_lp_incremental_assembly(s: Seq<char>, k: int)
    requires
        encode_utf8(s).len() <= u32::MAX,
        0 <= k < lp_frame_bytes(FrameView::Message(s)).len(),
    ensures
        ({
            let b = lp_frame_bytes(FrameView::Message(s));
            let fed = lp_run(ParserState::AwaitingLength, b.take(k));
            let resumed = lp_run(fed.0, fed.2 + b.skip(k));
            &&& fed.1 == Seq::<FrameView>::empty()
            &&& resumed == (
                ParserState::AwaitingLength,
                seq![FrameView::Message(s)],
                Seq::<u8>::empty(),
            )
        }),
{
    let e = encode_utf8(s);
    let n = e.len() as u32;
    let b = lp_frame_bytes(FrameView::Message(s));
    assert(b == le32_bytes(n) + e);
    assert(b.len() == 4 + e.len());
    lemma_le32_read_written(n);
    let p = b.take(k);
    if k < 4 {
        assert(lp_blocked(ParserState::AwaitingLength, p));
        let fed = lp_run(ParserState::AwaitingLength, p);
        assert(fed == (ParserState::AwaitingLength, Seq::<FrameView>::empty(), p));
        assert(p + b.skip(k) =~= b);
        lemma_lp_round_trip(s);
    } else {
        assert(!lp_blocked(ParserState::AwaitingLength, p));
        assert(p[0] == b[0] && p[1] == b[1] && p[2] == b[2] && p[3] == b[3]);
        assert(le32_value(p[0], p[1], p[2], p[3]) == n);
        let body_part = p.skip(4);
        assert(body_part.len() == k - 4 < n);
        assert(lp_blocked(ParserState::AwaitingBody { length: n }, body_part));
        assert(lp_run(ParserState::AwaitingBody { length: n }, body_part) == (
            ParserState::AwaitingBody { length: n },
            Seq::<FrameView>::empty(),
            body_part,
        ));
        let fed = lp_run(ParserState::AwaitingLength, p);
        assert(fed == (
            ParserState::AwaitingBody { length: n },
            Seq::<FrameView>::empty(),
            body_part,
        ));
        let whole_body = body_part + b.skip(k);
        assert(whole_body =~= e);
        encode_utf8_valid_utf8(s);
        encode_utf8_decode_utf8(s);
        assert(e.take(n as int) =~= e);
        assert(e.skip(n as int) =~= Seq::<u8>::empty());
        assert(lp_run(ParserState::AwaitingLength, Seq::<u8>::empty()) == (
            ParserState::AwaitingLength,
            Seq::<FrameView>::empty(),
            Seq::<u8>::empty(),
        ));
        assert(lp_run(ParserState::AwaitingBody { length: n }, e) == (
            ParserState::AwaitingLength,
            seq![FrameView::Message(s)] + Seq::<FrameView>::empty(),
            Seq::<u8>::empty(),
        ));
        assert(seq![FrameView::Message(s)] + Seq::<FrameView>::empty() =~= seq![
            FrameView::Message(s),
        ]);
    }
}

} // verus!
