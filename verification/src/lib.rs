//! A minimal codec and session core for a length-prefixed, varint-framed
//! binary protocol: variable-length integer encoding, length-prefixed string
//! and raw-byte fields, packet framing over a byte stream, and the packet
//! builders and phase bookkeeping of a small client session.

pub mod errors;
pub mod framing;
pub mod packet;
pub mod session;
pub mod varint;
