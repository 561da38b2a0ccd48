//! The client-side dispatch adapter bound to one connection. It validates
//! requests before anything reaches the wire, keeps the outbound and
//! inbound byte queues, and resolves responses strictly in the order the
//! requests were issued — correlation is purely positional.

use crate::buffer::ByteBuffer;
use crate::frame::{Frame, FrameView, LineError};
use crate::framed_transport::{
    delim_frame_bytes, delim_parse_rest, delim_parse_result, Parser, Serializer,
};
use crate::text::{contains_delimiter, truncated_text};
use vstd::prelude::*;

verus! {

/// A client handle bound to one delimiter-framed connection.
pub struct Client {
    parser: Parser,
    serializer: Serializer,
    outbound: ByteBuffer,
    inbound: ByteBuffer,
    pending: usize,
}

impl Client {
    /// Both byte queues are in a fit state.
    pub closed spec fn wf(&self) -> bool {
        self.outbound.wf() && self.inbound.wf()
    }

    /// Bytes queued for the connection driver to write to the socket.
    pub closed spec fn outbound_bytes(&self) -> Seq<u8> {
        self.outbound@
    }

    /// Received bytes not yet parsed into a response.
    pub closed spec fn inbound_bytes(&self) -> Seq<u8> {
        self.inbound@
    }

    /// How many issued requests still await their response.
    pub closed spec fn spec_pending(&self) -> int {
        self.pending as int
    }

    pub fn new() -> (c: Client)
        ensures
            c.wf(),
            c.outbound_bytes() == Seq::<u8>::empty(),
            c.inbound_bytes() == Seq::<u8>::empty(),
            c.spec_pending() == 0,
    {
        Client {
            parser: Parser,
            serializer: Serializer,
            outbound: ByteBuffer::new(),
            inbound: ByteBuffer::new(),
            pending: 0,
        }
    }

    /// Issue one call. A request that carries the delimiter fails
    /// immediately with `InvalidInput` and writes nothing at all — framing
    /// corruption is prevented at the source. Otherwise the request's frame
    /// is appended to the outbound queue, behind every earlier request.
    pub fn call(&mut self, req: String) -> (r: Result<(), LineError>)
        requires
            old(self).wf(),
            old(self).outbound_bytes().len() + delim_frame_bytes(FrameView::Message(req@)).len()
                <= usize::MAX,
            old(self).spec_pending() < usize::MAX,
        ensures
            final(self).wf(),
            final(self).inbound_bytes() == old(self).inbound_bytes(),
            req@.contains('\n') ==> {
                &&& r == Err::<(), LineError>(LineError::InvalidInput)
                &&& final(self).outbound_bytes() == old(self).outbound_bytes()
                &&& final(self).spec_pending() == old(self).spec_pending()
            },
            !req@.contains('\n') ==> {
                &&& r is Ok
                &&& final(self).outbound_bytes() == old(self).outbound_bytes()
                    + delim_frame_bytes(FrameView::Message(req@))
                &&& final(self).spec_pending() == old(self).spec_pending() + 1
            },
    {
        if contains_delimiter(req.as_str()) {
            return Err(LineError::InvalidInput);
        }
        self.serializer.serialize(Frame::Message(req), &mut self.outbound);
        self.pending = self.pending + 1;
        Ok(())
    }

    /// The adapter queues requests itself, so it can always accept a call.
    pub fn poll_ready(&self) -> (r: bool)
        ensures
            r,
    {
        true
    }

    /// Hand every queued outbound byte to the connection driver, leaving
    /// the queue empty.
    pub fn take_outbound(&mut self) -> (v: Vec<u8>)
        requires
            old(self).wf(),
        ensures
            final(self).wf(),
            v@ == old(self).outbound_bytes(),
            final(self).outbound_bytes() == Seq::<u8>::empty(),
            final(self).inbound_bytes() == old(self).inbound_bytes(),
            final(self).spec_pending() == old(self).spec_pending(),
    {
        self.outbound.compact();
        let n = self.outbound.len();
        let v = self.outbound.shift(n);
        proof {
            assert(v@ =~= old(self).outbound_bytes());
            assert(self.outbound@ =~= Seq::<u8>::empty());
        }
        v
    }

    /// The connection driver hands in bytes received from the socket.
    pub fn feed(&mut self, bytes: &[u8])
        requires
            old(self).wf(),
            old(self).inbound_bytes().len() + bytes@.len() <= usize::MAX,
        ensures
            final(self).wf(),
            final(self).inbound_bytes() == old(self).inbound_bytes() + bytes@,
            final(self).outbound_bytes() == old(self).outbound_bytes(),
            final(self).spec_pending() == old(self).spec_pending(),
    {
        self.inbound.write_slice(bytes);
    }

    /// Try to resolve the oldest outstanding call from the received bytes.
    /// A complete frame resolves it: its text on success, or a `Decode`
    /// failure when the peer's bytes were not valid UTF-8. No complete
    /// frame yet means no call resolves and nothing is consumed. Responses
    /// therefore resolve in exactly the order the requests were issued.
    pub fn poll_response(&mut self) -> (r: Option<Result<String, LineError>>)
        requires
            old(self).wf(),
        ensures
            final(self).wf(),
            final(self).outbound_bytes() == old(self).outbound_bytes(),
            final(self).inbound_bytes() == delim_parse_rest(old(self).inbound_bytes()),
            match delim_parse_result(old(self).inbound_bytes()) {
                None => {
                    &&& r is None
                    &&& final(self).spec_pending() == old(self).spec_pending()
                },
                Some(fv) => {
                    &&& (fv matches FrameView::Message(s) ==> (r matches Some(res) && res
                        matches Ok(t) && t@ == s))
                    &&& (fv matches FrameView::Error(e) ==> r == Some(
                        Err::<String, LineError>(LineError::Decode),
                    ))
                    &&& final(self).spec_pending() == if old(self).spec_pending() > 0 {
                        old(self).spec_pending() - 1
                    } else {
                        0
                    }
                },
            },
    {
        let parsed = self.parser.parse(&mut self.inbound);
        match parsed {
            None => None,
            Some(Frame::Message(s)) => {
                if self.pending > 0 {
                    self.pending = self.pending - 1;
                }
                Some(Ok(s))
            },
            Some(Frame::Error(_)) => {
                if self.pending > 0 {
                    self.pending = self.pending - 1;
                }
                Some(Err(LineError::Decode))
            },
            Some(Frame::Done) => {
                // a parse call never yields the sentinel: only done() does
                proof {
                    assert(false);
                }
                None
            },
        }
    }

    /// Close the connection. With the inbound buffer drained, the
    /// end-of-stream sentinel is produced exactly once, and every call
    /// still awaiting its response fails with `ConnectionClosed` rather
    /// than hang. A close that arrives with buffered mid-frame residue is a
    /// truncation: it is flagged as an error frame — never passed off as a
    /// clean `Done` — and outstanding calls fail with `TruncatedFrame`. The
    /// caller learns how many such failures to deliver, and with what.
    pub fn close(&mut self) -> (r: (Frame, usize, LineError))
        requires
            old(self).wf(),
        ensures
            final(self).wf(),
            r.1 == old(self).spec_pending(),
            final(self).spec_pending() == 0,
            final(self).inbound_bytes() == Seq::<u8>::empty(),
            final(self).outbound_bytes() == old(self).outbound_bytes(),
            old(self).inbound_bytes().len() == 0 ==> (r.0@ == FrameView::Done && r.2
                == LineError::ConnectionClosed),
            old(self).inbound_bytes().len() > 0 ==> (r.0@ == FrameView::Error("truncated frame"@)
                && r.2 == LineError::TruncatedFrame),
    {
        let failed = self.pending;
        self.pending = 0;
        if self.inbound.is_empty() {
            let sentinel = self.parser.done(&mut self.inbound);
            match sentinel {
                Some(f) => (f, failed, LineError::ConnectionClosed),
                None => (Frame::Done, failed, LineError::ConnectionClosed),
            }
        } else {
            self.inbound.compact();
            let n = self.inbound.len();
            let _ = self.inbound.shift(n);
            proof {
                assert(self.inbound@ =~= Seq::<u8>::empty());
            }
            (Frame::Error(truncated_text()), failed, LineError::TruncatedFrame)
        }
    }
}

} // verus!
