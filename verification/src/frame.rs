//! The unit exchanged between a framing codec and the dispatch layer, and
//! the errors the dispatch layer reports to local callers.

use vstd::prelude::*;

verus! {

/// One decoded protocol unit.
///
/// `Message` is a complete, successfully parsed request or response.
/// `Error` carries a protocol-level failure to be surfaced to the peer,
/// such as a payload that is not valid UTF-8. `Done` is the end-of-stream
/// sentinel: it is produced once, when the connection closes with the
/// residual buffer drained. The protocol never streams partial bodies, so
/// there is no body-bearing variant.
#[derive(Debug)]
pub enum Frame {
    Message(String),
    Error(String),
    Done,
}

/// The mathematical value of a [`Frame`]: its text as a character sequence.
pub enum FrameView {
    Message(Seq<char>),
    Error(Seq<char>),
    Done,
}

impl View for Frame {
    type V = FrameView;

    open spec fn view(&self) -> FrameView {
        match self {
            Frame::Message(s) => FrameView::Message(s@),
            Frame::Error(e) => FrameView::Error(e@),
            Frame::Done => FrameView::Done,
        }
    }
}

/// A failure reported to the local caller, never written to the wire.
///
/// `Decode`: a received frame's payload was not valid UTF-8.
/// `InvalidInput`: an outbound request contains the delimiter byte.
/// `InvalidResponse`: a handler's response contains the delimiter byte.
/// `TruncatedFrame`: the connection closed in the middle of a frame.
/// `ConnectionClosed`: the connection closed while a call awaited its
/// response.
#[derive(Clone, Copy, PartialEq, Eq, Structural, Debug)]
pub enum LineError {
    Decode,
    InvalidInput,
    InvalidResponse,
    TruncatedFrame,
    ConnectionClosed,
}

} // verus!
