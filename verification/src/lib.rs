//! A minimal pipelined line-protocol core: incremental framing codecs
//! (delimiter-terminated and length-prefixed) over a possibly fragmented
//! byte buffer, plus the request/response dispatch adapters that validate
//! payloads and keep responses in request order.

pub mod buffer;
pub mod client;
pub mod frame;
pub mod framed_transport;
pub mod length_transport;
pub mod service;
pub mod text;

pub use buffer::ByteBuffer;
pub use client::Client;
pub use frame::{Frame, FrameView, LineError};
pub use framed_transport::{Parser, Serializer};
pub use length_transport::{LengthParser, LengthSerializer, ParserState};
pub use service::{Handler, LineService};
