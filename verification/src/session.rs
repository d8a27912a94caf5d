//! The session layer's pure parts: the payload builders for the handful of
//! packet types the client speaks, the parser for the login-success
//! payload, and the phase flag that decides when a fresh stream must be
//! dialed before another handshake.

use vstd::prelude::*;
use vstd::utf8::encode_utf8;
use crate::errors::PacketError;
use crate::packet::{spec_read_string, Packet};
use crate::varint::{unsigned32, varint_enc};

verus! {

/// The protocol version the handshake declares.
pub const PROTOCOL_VERSION: i32 = 759;

/// The two big-endian bytes of a 16-bit value.
pub open spec fn u16_be(v: u16) -> Seq<u8> {
    seq![(v / 256) as u8, (v % 256) as u8]
}

/// The eight big-endian bytes of a 64-bit value.
pub open spec fn u64_be(v: u64) -> Seq<u8> {
    seq![
        (v as int / 0x100_0000_0000_0000 % 256) as u8,
        (v as int / 0x1_0000_0000_0000 % 256) as u8,
        (v as int / 0x100_0000_0000 % 256) as u8,
        (v as int / 0x1_0000_0000 % 256) as u8,
        (v as int / 0x100_0000 % 256) as u8,
        (v as int / 0x1_0000 % 256) as u8,
        (v as int / 0x100 % 256) as u8,
        (v as int % 256) as u8,
    ]
}

/// The handshake payload: protocol id 0, the protocol version, the target
/// hostname, the target port as two big-endian bytes, and the requested
/// next state (1 for status, 2 for login), all varints or length-prefixed
/// as the wire format asks.
pub open spec fn handshake_payload(host: Seq<char>, port: u16, next_state: i32) -> Seq<u8> {
    varint_enc(0) + varint_enc(759) + varint_enc(encode_utf8(host).len() as u32) + encode_utf8(
        host,
    ) + u16_be(port) + varint_enc(unsigned32(next_state as int) as u32)
}

/// The login-start payload: protocol id 0, the username, and a zero byte
/// declaring that no signature data follows.
pub open spec fn login_start_payload(user: Seq<char>) -> Seq<u8> {
    varint_enc(0) + varint_enc(encode_utf8(user).len() as u32) + encode_utf8(user) + seq![0u8]
}

/// The status-request payload: protocol id 0 and nothing else.
pub open spec fn status_request_payload() -> Seq<u8> {
    varint_enc(0)
}

/// The chat payload: protocol id 4, the message, the timestamp in
/// milliseconds as eight big-endian bytes, an eight-byte zero salt, a zero
/// signature length and a zero signed-preview flag.
pub open spec fn chat_payload(msg: Seq<char>, timestamp_ms: u64) -> Seq<u8> {
    varint_enc(4) + varint_enc(encode_utf8(msg).len() as u32) + encode_utf8(msg) + u64_be(
        timestamp_ms,
    ) + seq![0u8, 0u8, 0u8, 0u8, 0u8, 0u8, 0u8, 0u8] + seq![0u8] + seq![0u8]
}

/// The two big-endian bytes of a 16-bit value, as a vector.
fn u16_be_vec(v: u16) -> (r: Vec<u8>)
    ensures
        r@ == u16_be(v),
{
    let mut out: Vec<u8> = Vec::new();
    out.push((v / 256) as u8);
    out.push((v % 256) as u8);
    proof {
        assert(out@ =~= u16_be(v));
    }
    out
}

/// The eight big-endian bytes of a 64-bit value, as a vector.
fn u64_be_vec(v: u64) -> (r: Vec<u8>)
    ensures
        r@ == u64_be(v),
{
    let mut out: Vec<u8> = Vec::new();
    out.push((v / 0x100_0000_0000_0000) as u8);
    out.push((v / 0x1_0000_0000_0000 % 256) as u8);
    out.push((v / 0x100_0000_0000 % 256) as u8);
    out.push((v / 0x1_0000_0000 % 256) as u8);
    out.push((v / 0x100_0000 % 256) as u8);
    out.push((v / 0x1_0000 % 256) as u8);
    out.push((v / 0x100 % 256) as u8);
    out.push((v % 256) as u8);
    proof {
        assert(out@ =~= u64_be(v));
    }
    out
}

/// Builds the handshake packet for the given endpoint and next state.
/// Fails only when the hostname's UTF-8 form does not fit a signed 32-bit
/// byte length.
pub fn build_handshake(hostname: &str, port: u16, next_state: i32) -> (r: Result<
    Packet,
    PacketError,
>)
    ensures
        if encode_utf8(hostname@).len() < 0x8000_0000 {
            r matches Ok(p) && p.buffer@ == handshake_payload(hostname@, port, next_state)
                && p.cursor == 0 && p.protocol_id is None
        } else {
            r == Err::<Packet, PacketError>(PacketError::EncodingError)
        },
{
    let mut packet = Packet::new();
    if let Err(e) = packet.write_varint(0x00) {
        return Err(e);
    }
    if let Err(e) = packet.write_varint(PROTOCOL_VERSION) {
        return Err(e);
    }
    if let Err(e) = packet.write_string(hostname) {
        return Err(e);
    }
    let port_bytes = u16_be_vec(port);
    packet.write_slice(port_bytes.as_slice());
    if let Err(e) = packet.write_varint(next_state) {
        return Err(e);
    }
    proof {
        assert(packet.buffer@ =~= handshake_payload(hostname@, port, next_state));
    }
    Ok(packet)
}

/// Builds the login-start packet for the given username. Fails only when
/// the username's UTF-8 form does not fit a signed 32-bit byte length.
pub fn build_login_start(username: &str) -> (r: Result<Packet, PacketError>)
    ensures
        if encode_utf8(username@).len() < 0x8000_0000 {
            r matches Ok(p) && p.buffer@ == login_start_payload(username@) && p.cursor == 0
                && p.protocol_id is None
        } else {
            r == Err::<Packet, PacketError>(PacketError::EncodingError)
        },
{
    let mut packet = Packet::new();
    if let Err(e) = packet.write_varint(0x00) {
        return Err(e);
    }
    if let Err(e) = packet.write_string(username) {
        return Err(e);
    }
    packet.write_slice(&[0u8]);
    proof {
        assert(packet.buffer@ =~= login_start_payload(username@));
    }
    Ok(packet)
}

/// Builds the empty status-request packet.
pub fn build_status_request() -> (r: Packet)
    ensures
        r.buffer@ == status_request_payload(),
        r.cursor == 0,
        r.protocol_id is None,
{
    let mut packet = Packet::new();
    let _ = packet.write_varint(0x00);
    proof {
        assert(packet.buffer@ =~= status_request_payload());
    }
    packet
}

/// Builds an unsigned chat packet carrying the given message and
/// timestamp. Fails only when the message's UTF-8 form does not fit a
/// signed 32-bit byte length.
pub fn build_chat_message(message: &str, timestamp_ms: u64) -> (r: Result<Packet, PacketError>)
    ensures
        if encode_utf8(message@).len() < 0x8000_0000 {
            r matches Ok(p) && p.buffer@ == chat_payload(message@, timestamp_ms) && p.cursor
                == 0 && p.protocol_id is None
        } else {
            r == Err::<Packet, PacketError>(PacketError::EncodingError)
        },
{
    let mut packet = Packet::new();
    if let Err(e) = packet.write_varint(0x04) {
        return Err(e);
    }
    if let Err(e) = packet.write_string(message) {
        return Err(e);
    }
    let stamp = u64_be_vec(timestamp_ms);
    packet.write_slice(stamp.as_slice());
    packet.write_slice(&[0u8, 0u8, 0u8, 0u8, 0u8, 0u8, 0u8, 0u8]);
    packet.write_slice(&[0u8]);
    packet.write_slice(&[0u8]);
    proof {
        assert(packet.buffer@ =~= chat_payload(message@, timestamp_ms));
    }
    Ok(packet)
}

/// Decodes a login-success payload at the packet's cursor: sixteen raw
/// bytes of UUID, then the length-prefixed username. On success the cursor
/// ends past the username; on failure it stops where decoding stopped.
pub fn parse_login_success(packet: &mut Packet) -> (r: Result<(Vec<u8>, String), PacketError>)
    ensures
        final(packet).buffer@ == old(packet).buffer@,
        final(packet).protocol_id == old(packet).protocol_id,
        if old(packet).cursor + 16 <= old(packet).buffer@.len() {
            match spec_read_string(old(packet).buffer@, old(packet).cursor + 16) {
                Ok((chars, np)) => r matches Ok((uuid, name))
                    && uuid@ == old(packet).buffer@.subrange(
                    old(packet).cursor as int,
                    old(packet).cursor + 16,
                ) && name@ == chars && final(packet).cursor == np,
                Err((e, np)) => r matches Err(e2) && e2 == e && final(packet).cursor == np,
            }
        } else {
            r == Err::<(Vec<u8>, String), PacketError>(PacketError::FramingError)
                && final(packet).cursor == old(packet).cursor
        },
{
    let uuid = match packet.read_slice(16) {
        Ok(v) => v,
        Err(e) => {
            return Err(e);
        },
    };
    let name = match packet.read_string() {
        Ok(s) => s,
        Err(e) => {
            return Err(e);
        },
    };
    Ok((uuid, name))
}

/// The one phase fact the session tracks: whether a handshake frame has
/// already been sent on the current stream.
pub struct SessionState {
    pub handshake_performed: bool,
}

impl SessionState {
    /// A fresh session: no handshake sent yet.
    pub fn new() -> (r: SessionState)
        ensures
            !r.handshake_performed,
    {
        SessionState { handshake_performed: false }
    }

    /// Whether a fresh stream must be dialed before another handshake:
    /// exactly when one was already performed on the current stream.
    pub fn needs_redial(&self) -> (r: bool)
        ensures
            r == self.handshake_performed,
    {
        self.handshake_performed
    }

    /// Records that a handshake frame has been sent on the current stream.
    pub fn mark_handshake_performed(&mut self)
        ensures
            final(self).handshake_performed,
    {
        self.handshake_performed = true;
    }
}

} // verus!
