//! Error kinds shared by the codec and the session layer.

use vstd::prelude::*;

verus! {

/// What can go wrong while encoding, decoding or framing a packet.
#[derive(Clone, Copy, Debug, PartialEq, Eq, Structural)]
pub enum PacketError {
    /// A cursor or length overran the buffer, a varint was oversized, or a
    /// length prefix was malformed.
    FramingError,
    /// A string field held invalid UTF-8, or a value could not be encoded.
    EncodingError,
    /// The underlying stream failed to dial, read or write.
    ConnectionError,
    /// The stream ended in the middle of a frame.
    UnexpectedEof,
}

} // verus!
