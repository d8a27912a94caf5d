//! Framing: one frame on the wire is a varint payload length followed by
//! that many payload bytes, the first of which is the frame's protocol id.
//! The decode side is written against an in-memory byte sequence so that
//! the same logic serves both a recorded stream and, byte by byte, a live
//! one.

use vstd::prelude::*;
use vstd::slice::{slice_index_get, slice_subrange};
use crate::errors::PacketError;
use crate::packet::Packet;
use crate::varint::{
    lemma_scan_finds, lemma_scan_is_none, lemma_scan_props, signed32, varint_enc, varint_scan,
    varint_val,
};

verus! {

/// What one step of assembling a length prefix found.
#[derive(Clone, Copy, Debug, PartialEq, Eq, Structural)]
pub enum PrefixStatus {
    /// The byte carried the continuation bit; the prefix goes on.
    NeedMore,
    /// A sixth byte arrived without a terminator: no frame is taken.
    Overflow,
    /// The byte's continuation bit was clear; the prefix is complete.
    Complete,
}

impl Packet {
    /// One step of collecting a frame's length prefix from a stream:
    /// appends the byte just read and reports whether the prefix is now
    /// complete, still needs bytes, or has overflowed its five-byte bound.
    pub fn push_prefix_byte(&mut self, byte: u8) -> (r: PrefixStatus)
        ensures
            final(self).buffer@ == old(self).buffer@.push(byte),
            final(self).cursor == old(self).cursor,
            final(self).protocol_id == old(self).protocol_id,
            r == (if old(self).buffer@.len() + 1 > 5 {
                PrefixStatus::Overflow
            } else if byte < 128 {
                PrefixStatus::Complete
            } else {
                PrefixStatus::NeedMore
            }),
    {
        self.buffer.push(byte);
        if self.buffer.len() > 5 {
            PrefixStatus::Overflow
        } else if byte < 128 {
            PrefixStatus::Complete
        } else {
            PrefixStatus::NeedMore
        }
    }
}

/// The shape of a decoded inbound frame: the bytes a packet's buffer holds
/// (length prefix and payload), the cursor just past the protocol id, and
/// the protocol id itself.
pub struct FrameModel {
    pub bytes: Seq<u8>,
    pub cursor: int,
    pub id: u8,
}

/// What reading one frame at `pos` yields.
pub enum FrameStep {
    /// The sequence ends before the frame does: a live stream would block
    /// or report that it closed mid-frame.
    Eof,
    /// The length prefix ran to six bytes without terminating; the six
    /// bytes are consumed and no frame is taken. Resume at the position
    /// carried here.
    Skip(int),
    /// The length prefix decoded to a negative length, or to an empty
    /// payload with no room for a protocol id.
    Malformed,
    /// A whole frame: its shape, and the position just past it.
    Got(FrameModel, int),
}

/// Reading one frame at `pos`: scan the length prefix, take its value as
/// the payload length, and cut the payload that follows, whose first byte
/// is the frame's protocol id.
pub open spec fn spec_read_frame(data: Seq<u8>, pos: int) -> FrameStep {
    match varint_scan(data, pos, 5) {
        None => if pos + 6 <= data.len() {
            FrameStep::Skip(pos + 6)
        } else {
            FrameStep::Eof
        },
        Some(k) => {
            let l = signed32(varint_val(data.subrange(pos, pos + k)) % 0x1_0000_0000);
            if l < 0 {
                FrameStep::Malformed
            } else if pos + k + l > data.len() {
                FrameStep::Eof
            } else if l == 0 {
                FrameStep::Malformed
            } else {
                FrameStep::Got(
                    FrameModel {
                        bytes: data.subrange(pos, pos + k + l),
                        cursor: k + 1,
                        id: data[pos + k],
                    },
                    pos + k + l,
                )
            }
        },
    }
}

/// The first frame at or after `pos` whose protocol id is `id`, skipping
/// frames with other ids and oversized length prefixes alike, as the
/// dispatch loop does.
pub open spec fn spec_find_frame(data: Seq<u8>, pos: int, id: u8) -> Result<
    (FrameModel, int),
    PacketError,
>
    decreases data.len() - pos,
    via spec_find_frame_decreases
{
    match spec_read_frame(data, pos) {
        FrameStep::Eof => Err(PacketError::UnexpectedEof),
        FrameStep::Malformed => Err(PacketError::FramingError),
        FrameStep::Skip(np) => spec_find_frame(data, np, id),
        FrameStep::Got(fm, np) => if fm.id == id {
            Ok((fm, np))
        } else {
            spec_find_frame(data, np, id)
        },
    }
}

#[via_fn]
proof fn spec_find_frame_decreases(data: Seq<u8>, pos: int, id: u8) {
    match spec_read_frame(data, pos) {
        FrameStep::Got(fm, np) => {
            lemma_scan_props(data, pos, 5);
        },
        _ => {},
    }
}

/// Frames an outbound packet for the wire: the varint length of its buffer,
/// then the buffer itself. Fails when the buffer's length does not fit in a
/// signed 32-bit value.
pub fn frame_packet(payload: &Packet) -> (r: Result<Vec<u8>, PacketError>)
    ensures
        if payload.buffer@.len() < 0x8000_0000 {
            r matches Ok(v) && v@ == varint_enc(payload.buffer@.len() as u32)
                + payload.buffer@
        } else {
            r == Err::<Vec<u8>, PacketError>(PacketError::EncodingError)
        },
{
    if payload.buffer.len() > 0x7FFF_FFFF {
        return Err(PacketError::EncodingError);
    }
    let mut framed = Packet::new();
    if let Err(e) = framed.write_varint(payload.buffer.len() as i32) {
        return Err(e);
    }
    framed.write_slice(payload.buffer.as_slice());
    proof {
        assert(framed.buffer@ =~= varint_enc(payload.buffer@.len() as u32) + payload.buffer@);
    }
    Ok(framed.buffer)
}

/// Reads one frame from `data` at `pos`, as `spec_read_frame` describes:
/// collects the length prefix byte by byte, gives up after six prefix
/// bytes with `Ok(None)`, then takes the payload and reads its first byte
/// as the protocol id. Returns the decoded packet and the position just
/// past the frame.
#[verifier::loop_isolation(false)]
pub fn read_packet_from(data: &[u8], pos: usize) -> (r: Result<
    (Option<Packet>, usize),
    PacketError,
>)
    ensures
        match spec_read_frame(data@, pos as int) {
            FrameStep::Eof => r == Err::<(Option<Packet>, usize), PacketError>(
                PacketError::UnexpectedEof,
            ),
            FrameStep::Skip(np) => r matches Ok((opt, rp)) && opt is None && rp as int == np,
            FrameStep::Malformed => r == Err::<(Option<Packet>, usize), PacketError>(
                PacketError::FramingError,
            ),
            FrameStep::Got(fm, np) => r matches Ok((opt, rp)) && opt matches Some(p)
                && p.buffer@ == fm.bytes && p.cursor as int == fm.cursor && p.protocol_id
                == Some(fm.id) && rp as int == np,
        },
{
    let mut response = Packet::new();
    let n: usize = data.len();
    let mut j: usize = 0;
    loop
        invariant
            j <= 5,
            j == 0 ==> response.buffer@ == Seq::<u8>::empty(),
            j >= 1 ==> pos + j <= n && response.buffer@ == data@.subrange(
                pos as int,
                pos as int + j as int,
            ),
            response.cursor == 0,
            response.protocol_id is None,
            forall|t: int| 0 <= t < j ==> #[trigger] data@[pos + t] >= 128,
        decreases 6 - j,
    {
        if pos >= n || j >= n - pos {
            proof {
                assert forall|t: int| 0 <= t < 5 && pos + t < data@.len() implies #[trigger]
                    data@[pos + t] >= 128 by {
                    assert(t < j);
                }
                lemma_scan_is_none(data@, pos as int, 5);
            }
            return Err(PacketError::UnexpectedEof);
        }
        let b: u8 = *slice_index_get(data, pos + j);
        let status = response.push_prefix_byte(b);
        proof {
            assert(response.buffer@ =~= data@.subrange(pos as int, pos as int + j + 1));
        }
        match status {
            PrefixStatus::Overflow => {
                proof {
                    assert forall|t: int| 0 <= t < 5 && pos + t < data@.len() implies #[trigger]
                        data@[pos + t] >= 128 by {
                        assert(t < j);
                    }
                    lemma_scan_is_none(data@, pos as int, 5);
                }
                return Ok((None, pos + 6));
            },
            PrefixStatus::Complete => {
                let k: usize = j + 1;
                proof {
                    assert(data@[pos + j] == b);
                    lemma_scan_finds(data@, pos as int, 5, k as int);
                    assert forall|t: int| 0 <= t < k - 1 implies #[trigger] response.buffer@[0
                        + t] >= 128 by {
                        assert(data@[pos + t] >= 128);
                    }
                    assert(response.buffer@[0 + k - 1] == b);
                    lemma_scan_finds(response.buffer@, 0, 5, k as int);
                    assert(response.buffer@.subrange(0, k as int) =~= response.buffer@);
                }
                let ghost prefix: Seq<u8> = response.buffer@;
                let l_signed: i32 = match response.read_varint() {
                    Ok(v) => v,
                    Err(_) => {
                        return Err(PacketError::FramingError);
                    },
                };
                proof {
                    assert(prefix =~= data@.subrange(pos as int, pos + k));
                }
                if l_signed < 0 {
                    return Err(PacketError::FramingError);
                }
                let l: usize = l_signed as usize;
                if l > n - (pos + k) {
                    return Err(PacketError::UnexpectedEof);
                }
                response.write_slice(slice_subrange(data, pos + k, pos + k + l));
                proof {
                    assert(response.buffer@ =~= data@.subrange(pos as int, pos + k + l));
                }
                match response.read_protocol_id() {
                    Ok(_) => {},
                    Err(_) => {
                        return Err(PacketError::FramingError);
                    },
                }
                proof {
                    assert(response.protocol_id == Some(data@[pos + k]));
                }
                return Ok((Some(response), pos + k + l));
            },
            PrefixStatus::NeedMore => {
                j = j + 1;
            },
        }
    }
}

/// Reads frames from `data` starting at `start` until one carries the
/// requested protocol id, as `spec_find_frame` describes: frames with other
/// ids and oversized length prefixes are skipped; a malformed length or an
/// exhausted sequence stops the search with the matching error.
#[verifier::loop_isolation(false)]
pub fn block_until_packet_id_from(data: &[u8], start: usize, packet_id: u8) -> (r: Result<
    (Packet, usize),
    PacketError,
>)
    ensures
        match spec_find_frame(data@, start as int, packet_id) {
            Ok((fm, np)) => r matches Ok((p, rp)) && p.buffer@ == fm.bytes && p.cursor as int
                == fm.cursor && p.protocol_id == Some(fm.id) && rp as int == np,
            Err(e) => r == Err::<(Packet, usize), PacketError>(e),
        },
{
    let mut pos: usize = start;
    loop
        invariant
            spec_find_frame(data@, pos as int, packet_id) == spec_find_frame(
                data@,
                start as int,
                packet_id,
            ),
        decreases data@.len() - pos as int,
    {
        match read_packet_from(data, pos) {
            Err(e) => {
                return Err(e);
            },
            Ok((opt, np)) => {
                match opt {
                    None => {
                        pos = np;
                    },
                    Some(p) => {
                        let matched: bool = match p.get_protocol_id() {
                            Some(idv) => idv == packet_id,
                            None => false,
                        };
                        if matched {
                            return Ok((p, np));
                        }
                        proof {
                            lemma_scan_props(data@, pos as int, 5);
                        }
                        pos = np;
                    },
                }
            },
        }
    }
}

} // verus!
