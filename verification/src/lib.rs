//! An HTTP/1.1 client protocol engine over a byte-oriented transport.
//!
//! The engine serializes requests, parses status lines and header blocks,
//! decides how a response body is framed (none, fixed-length, chunked, or
//! delimited by connection close), reads exactly that much body, and governs
//! whether the transport may be reused for a further exchange.

use vstd::prelude::*;

pub mod bytes;
pub mod message;
pub mod codec;
pub mod framing;
pub mod transport;
pub mod connection;
pub mod uri;

verus! {

/// The error taxonomy of the engine. Every parse or framing failure is
/// reported through one of these variants; the engine itself never panics.
#[derive(Clone, Copy, Debug, PartialEq, Eq, Structural)]
pub enum HttpError {
    /// The underlying transport reported an I/O failure.
    Transport,
    /// A transport read was cancelled or timed out.
    Timeout,
    /// The status line had no protocol token, no status token, or a status
    /// token that is not a three-digit code in the valid range.
    MalformedStatusLine,
    /// A non-empty header line contained no colon.
    MalformedHeaderLine,
    /// The stream ended before a fixed-length body or a header block was
    /// complete.
    UnexpectedEof,
    /// A chunk-size line was not valid hexadecimal, a chunk delimiter was
    /// missing, or the stream ended before the terminating zero chunk.
    MalformedChunkFraming,
    /// `send` was called on a connection that is already closed.
    ConnectionClosed,
}

} // verus!
