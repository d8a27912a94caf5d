//! The packet buffer: a growable byte buffer with a read cursor and an
//! optional classification tag, together with the primitive encode and
//! decode operations of the wire format.

use vstd::prelude::*;
use vstd::arithmetic::div_mod::{lemma_mod_multiples_vanish, lemma_small_mod};
use vstd::slice::{slice_index_get, slice_to_vec};
use vstd::string::StringSliceAdditionalSpecFns;
use vstd::utf8::{decode_utf8, encode_utf8, valid_utf8};
use vstd::utf8::{encode_utf8_decode_utf8, encode_utf8_valid_utf8};
use crate::errors::PacketError;
use crate::varint::{
    lemma_pow128_values, lemma_scan_finds, lemma_scan_is_none, lemma_varint_round_trip,
    lemma_varint_val_bound, lemma_varint_val_push, pow128, spec_read_varint, unsigned32,
    varint_enc, varint_val,
};

verus! {

/// One protocol message under construction or under decode. `buffer` owns
/// the bytes; `cursor` marks the next unread byte and only ever moves
/// forward; `protocol_id` is the frame's classification tag, unset until the
/// framing layer reads it off the front of the payload.
#[derive(Debug)]
pub struct Packet {
    pub buffer: Vec<u8>,
    pub cursor: usize,
    pub protocol_id: Option<u8>,
}

/// The outcome of decoding a length-prefixed string at `pos`: on success,
/// the decoded characters and the position just past the string's bytes; on
/// failure, the error kind and the position at which decoding stopped. The
/// byte length must be a well-formed, non-negative varint, the bytes it
/// counts must lie inside the sequence, and they must be valid UTF-8.
pub open spec fn spec_read_string(bytes: Seq<u8>, pos: int) -> Result<
    (Seq<char>, int),
    (PacketError, int),
> {
    match spec_read_varint(bytes, pos) {
        Err(np) => Err((PacketError::FramingError, np)),
        Ok((l, np)) => {
            if l < 0 {
                Err((PacketError::FramingError, np))
            } else if np + l > bytes.len() {
                Err((PacketError::FramingError, np))
            } else if valid_utf8(bytes.subrange(np, np + l)) {
                Ok((decode_utf8(bytes.subrange(np, np + l)), np + l))
            } else {
                Err((PacketError::EncodingError, np))
            }
        },
    }
}

/// Relies on String::from_utf8: it returns the string decoded from the
/// given bytes exactly when they are valid UTF-8, and rejects them
/// otherwise.
#[verifier::external_body]
fn string_from_utf8(bytes: Vec<u8>) -> (r: Option<String>)
    ensures
        r is Some <==> valid_utf8(bytes@),
        r matches Some(s) ==> s@ == decode_utf8(bytes@),
{
    String::from_utf8(bytes).ok()
}

impl Packet {
    /// A packet whose buffer is a copy of the given bytes, with the cursor
    /// at the start and no classification tag.
    pub fn from_bytes(bytes: &[u8]) -> (r: Packet)
        ensures
            r.buffer@ == bytes@,
            r.cursor == 0,
            r.protocol_id is None,
    {
        Packet { buffer: slice_to_vec(bytes), cursor: 0, protocol_id: None }
    }

    /// A packet whose buffer holds `size` zero bytes, with the cursor at the
    /// start and no classification tag.
    pub fn with_size(size: usize) -> (r: Packet)
        ensures
            r.buffer@ == Seq::new(size as nat, |i: int| 0u8),
            r.cursor == 0,
            r.protocol_id is None,
    {
        let buffer = vec![0u8; size];
        proof {
            assert(buffer@ =~= Seq::new(size as nat, |i: int| 0u8));
        }
        Packet { buffer, cursor: 0, protocol_id: None }
    }

    /// An empty packet: no bytes, cursor at the start, no classification tag.
    pub fn new() -> (r: Packet)
        ensures
            r.buffer@ == Seq::<u8>::empty(),
            r.cursor == 0,
            r.protocol_id is None,
    {
        let buffer: Vec<u8> = Vec::new();
        proof {
            assert(buffer@ =~= Seq::<u8>::empty());
        }
        Packet { buffer, cursor: 0, protocol_id: None }
    }

    /// Appends the varint encoding of `value`, read as an unsigned 32-bit
    /// quantity, to the buffer. A 32-bit value always fits in five groups,
    /// so encoding always succeeds.
    #[verifier::loop_isolation(false)]
    pub fn write_varint(&mut self, value: i32) -> (r: Result<(), PacketError>)
        ensures
            r is Ok,
            final(self).buffer@ == old(self).buffer@ + varint_enc(
                unsigned32(value as int) as u32,
            ),
            final(self).cursor == old(self).cursor,
            final(self).protocol_id == old(self).protocol_id,
    {
        let mut v: u32 = if value >= 0 {
            value as u32
        } else {
            ((value as i64) + 0x1_0000_0000) as u32
        };
        let ghost orig: u32 = v;
        let ghost old_buf: Seq<u8> = self.buffer@;
        let ghost old_cursor: usize = self.cursor;
        let ghost old_id: Option<u8> = self.protocol_id;
        proof {
            assert(orig as int == unsigned32(value as int));
        }
        let mut iterations: u32 = 1;
        loop
            invariant
                1 <= iterations <= 5,
                self.cursor == old_cursor,
                self.protocol_id == old_id,
                old_buf + varint_enc(orig) == self.buffer@ + varint_enc(v),
                iterations == 2 ==> v < 0x200_0000,
                iterations == 3 ==> v < 0x4_0000,
                iterations == 4 ==> v < 0x800,
                iterations == 5 ==> v < 0x10,
            decreases v,
        {
            if iterations > 5 {
                return Err(PacketError::EncodingError);
            }
            if v < 128 {
                self.buffer.push(v as u8);
                proof {
                    assert(varint_enc(v) =~= seq![v as u8]);
                    assert(self.buffer@ =~= old_buf + varint_enc(orig));
                }
                return Ok(());
            }
            let b: u8 = (v % 128 + 128) as u8;
            self.buffer.push(b);
            proof {
                assert(varint_enc(v) =~= seq![b] + varint_enc(v / 128));
                assert(old_buf + varint_enc(orig) =~= self.buffer@ + varint_enc(v / 128));
            }
            v = v / 128;
            iterations = iterations + 1;
        }
    }

    /// Decodes a varint at the cursor and advances the cursor past it, as
    /// `spec_read_varint` describes. Fails when the buffer ends, or a fifth
    /// group still carries the continuation bit, before a terminating group
    /// appears; the cursor stays on the bytes already examined.
    #[verifier::loop_isolation(false)]
    pub fn read_varint(&mut self) -> (r: Result<i32, PacketError>)
        ensures
            final(self).buffer@ == old(self).buffer@,
            final(self).protocol_id == old(self).protocol_id,
            match spec_read_varint(old(self).buffer@, old(self).cursor as int) {
                Ok((v, np)) => r matches Ok(x) && x as int == v && final(self).cursor == np,
                Err(np) => r == Err::<i32, PacketError>(PacketError::FramingError)
                    && final(self).cursor == np,
            },
    {
        let ghost bytes: Seq<u8> = self.buffer@;
        let ghost pos0: int = self.cursor as int;
        let ghost old_id: Option<u8> = self.protocol_id;
        let mut value: u32 = 0;
        let mut factor: u32 = 1;
        let mut groups: u32 = 0;
        proof {
            lemma_pow128_values();
        }
        loop
            invariant
                self.buffer@ == bytes,
                self.protocol_id == old_id,
                0 <= groups <= 4,
                self.cursor as int == pos0 + groups as int,
                0 <= pos0,
                groups >= 1 ==> pos0 + groups as int <= bytes.len(),
                factor as int == pow128(groups as nat),
                groups == 0 ==> value == 0,
                groups >= 1 ==> value as int == varint_val(
                    bytes.subrange(pos0, pos0 + groups as int),
                ),
                value < factor,
                forall|j: int| 0 <= j < groups as int ==> #[trigger] bytes[pos0 + j] >= 128,
                pow128(0) == 1 && pow128(1) == 128 && pow128(2) == 0x4000 && pow128(3)
                    == 0x20_0000 && pow128(4) == 0x1000_0000 && pow128(5) == 0x8_0000_0000,
            decreases 5 - groups as int,
        {
            if self.cursor >= self.buffer.len() {
                proof {
                    assert forall|j: int| 0 <= j < 5 && pos0 + j < bytes.len() implies #[trigger]
                        bytes[pos0 + j] >= 128 by {
                        assert(pos0 + j < pos0 + groups as int);
                    }
                    lemma_scan_is_none(bytes, pos0, 5);
                }
                return Err(PacketError::FramingError);
            }
            let current: u8 = self.buffer[self.cursor];
            self.cursor = self.cursor + 1;
            let data: u32 = (current as u32) % 128;
            let ghost pre: u32 = value;
            let ghost g: int = groups as int;
            if groups == 4 {
                value = value + (data % 16) * 0x1000_0000;
            } else {
                proof {
                    assert(value + data * factor < 128 * factor) by (nonlinear_arith)
                        requires
                            value < factor,
                            data < 128,
                            factor > 0,
                    ;
                    assert(128 * factor == pow128((g + 1) as nat));
                }
                value = value + data * factor;
            }
            proof {
                let sub = bytes.subrange(pos0, pos0 + g);
                let sub1 = bytes.subrange(pos0, pos0 + g + 1);
                assert(sub1 =~= sub.push(current));
                lemma_varint_val_push(sub, current);
                if g == 0 {
                    assert(sub =~= Seq::<u8>::empty());
                    assert(varint_val(sub) == 0);
                }
                assert(varint_val(sub1) == pre + (current % 128) * pow128(g as nat));
                assert(current % 128 == data);
            }
            if current < 128 {
                let ghost k: int = g + 1;
                proof {
                    lemma_scan_finds(bytes, pos0, 5, k);
                    let sub1 = bytes.subrange(pos0, pos0 + k);
                    if g == 4 {
                        assert(data * 0x1000_0000 == (data / 16) * 0x1_0000_0000 + (data % 16)
                            * 0x1000_0000) by (nonlinear_arith);
                        assert(varint_val(sub1) == 0x1_0000_0000 * (data / 16) as int + value);
                        lemma_mod_multiples_vanish(
                            (data / 16) as int,
                            value as int,
                            0x1_0000_0000,
                        );
                        lemma_small_mod(value as nat, 0x1_0000_0000 as nat);
                    } else {
                        lemma_varint_val_bound(sub1);
                        assert(pow128(sub1.len()) <= 0x1000_0000);
                        lemma_small_mod(varint_val(sub1) as nat, 0x1_0000_0000 as nat);
                    }
                    assert(varint_val(sub1) % 0x1_0000_0000 == value);
                }
                let signed: i32 = if value < 0x8000_0000 {
                    value as i32
                } else {
                    ((value as i64) - 0x1_0000_0000) as i32
                };
                return Ok(signed);
            }
            if groups == 4 {
                proof {
                    assert(bytes[pos0 + 4] >= 128);
                    assert forall|j: int| 0 <= j < 5 && pos0 + j < bytes.len() implies #[trigger]
                        bytes[pos0 + j] >= 128 by {
                        if j < 4 {
                            assert(bytes[pos0 + j] >= 128);
                        }
                    }
                    lemma_scan_is_none(bytes, pos0, 5);
                }
                return Err(PacketError::FramingError);
            }
            factor = factor * 128;
            groups = groups + 1;
        }
    }

    /// Appends the given bytes to the buffer verbatim.
    #[verifier::loop_isolation(false)]
    pub fn write_slice(&mut self, slice: &[u8])
        ensures
            final(self).buffer@ == old(self).buffer@ + slice@,
            final(self).cursor == old(self).cursor,
            final(self).protocol_id == old(self).protocol_id,
    {
        let ghost old_buf: Seq<u8> = self.buffer@;
        let n: usize = slice.len();
        let mut i: usize = 0;
        while i < n
            invariant
                i <= n,
                n == slice@.len(),
                self.buffer@ == old_buf + slice@.subrange(0, i as int),
                self.cursor == old(self).cursor,
                self.protocol_id == old(self).protocol_id,
            decreases n - i,
        {
            self.buffer.push(*slice_index_get(slice, i));
            proof {
                assert(self.buffer@ =~= old_buf + slice@.subrange(0, i + 1));
            }
            i = i + 1;
        }
        proof {
            assert(slice@.subrange(0, n as int) =~= slice@);
        }
    }

    /// Returns a copy of the next `amount` bytes and advances the cursor
    /// past them. Fails, leaving the packet unchanged, when fewer than
    /// `amount` bytes remain after the cursor.
    #[verifier::loop_isolation(false)]
    pub fn read_slice(&mut self, amount: usize) -> (r: Result<Vec<u8>, PacketError>)
        ensures
            final(self).buffer@ == old(self).buffer@,
            final(self).protocol_id == old(self).protocol_id,
            if old(self).cursor + amount <= old(self).buffer@.len() {
                &&& r matches Ok(v) && v@ == old(self).buffer@.subrange(
                    old(self).cursor as int,
                    old(self).cursor + amount,
                )
                &&& final(self).cursor == old(self).cursor + amount
            } else {
                &&& r == Err::<Vec<u8>, PacketError>(PacketError::FramingError)
                &&& final(self).cursor == old(self).cursor
            },
    {
        if self.cursor > self.buffer.len() || amount > self.buffer.len() - self.cursor {
            return Err(PacketError::FramingError);
        }
        let mut out: Vec<u8> = Vec::new();
        let mut i: usize = 0;
        while i < amount
            invariant
                i <= amount,
                self.cursor + amount <= self.buffer@.len(),
                out@ == self.buffer@.subrange(self.cursor as int, self.cursor + i as int),
                self == old(self),
            decreases amount - i,
        {
            out.push(self.buffer[self.cursor + i]);
            proof {
                assert(out@ =~= self.buffer@.subrange(
                    self.cursor as int,
                    self.cursor + i + 1,
                ));
            }
            i = i + 1;
        }
        self.cursor = self.cursor + amount;
        Ok(out)
    }

    /// Reads one byte at the cursor as the frame's classification tag,
    /// records it, and advances the cursor. Fails, leaving the packet
    /// unchanged, when no byte remains.
    pub fn read_protocol_id(&mut self) -> (r: Result<u8, PacketError>)
        ensures
            final(self).buffer@ == old(self).buffer@,
            if old(self).cursor < old(self).buffer@.len() {
                &&& r matches Ok(b) && b == old(self).buffer@[old(self).cursor as int]
                &&& final(self).protocol_id == Some(old(self).buffer@[old(self).cursor as int])
                &&& final(self).cursor == old(self).cursor + 1
            } else {
                &&& r == Err::<u8, PacketError>(PacketError::FramingError)
                &&& final(self).protocol_id == old(self).protocol_id
                &&& final(self).cursor == old(self).cursor
            },
    {
        if self.cursor >= self.buffer.len() {
            return Err(PacketError::FramingError);
        }
        let id: u8 = self.buffer[self.cursor];
        self.protocol_id = Some(id);
        self.cursor = self.cursor + 1;
        Ok(id)
    }

    /// The frame's classification tag, if the framing layer has read it.
    pub fn get_protocol_id(&self) -> (r: Option<u8>)
        ensures
            r == self.protocol_id,
    {
        self.protocol_id
    }

    /// Appends a length-prefixed string: the varint byte length of the
    /// string's UTF-8 form, then those bytes. Fails, leaving the packet
    /// unchanged, when the byte length does not fit in a signed 32-bit
    /// value.
    pub fn write_string(&mut self, value: &str) -> (r: Result<(), PacketError>)
        ensures
            final(self).cursor == old(self).cursor,
            final(self).protocol_id == old(self).protocol_id,
            if encode_utf8(value@).len() < 0x8000_0000 {
                r is Ok && final(self).buffer@ == old(self).buffer@ + varint_enc(
                    encode_utf8(value@).len() as u32,
                ) + encode_utf8(value@)
            } else {
                r == Err::<(), PacketError>(PacketError::EncodingError) && final(self).buffer@
                    == old(self).buffer@
            },
    {
        let bytes: &[u8] = value.as_bytes();
        if bytes.len() > 0x7FFF_FFFF {
            return Err(PacketError::EncodingError);
        }
        let ghost before: Seq<u8> = self.buffer@;
        if let Err(e) = self.write_varint(bytes.len() as i32) {
            return Err(e);
        }
        self.write_slice(bytes);
        proof {
            assert(unsigned32(bytes@.len() as int) == bytes@.len() as int);
            assert(self.buffer@ =~= before + varint_enc(encode_utf8(value@).len() as u32)
                + encode_utf8(value@));
        }
        Ok(())
    }

    /// Decodes a length-prefixed string at the cursor, as
    /// `spec_read_string` describes: a varint byte length, then that many
    /// UTF-8 bytes. On success the cursor moves past the string; on failure
    /// it stops after the length prefix, or on the bytes already examined
    /// when the prefix itself is malformed.
    #[verifier::loop_isolation(false)]
    pub fn read_string(&mut self) -> (r: Result<String, PacketError>)
        ensures
            final(self).buffer@ == old(self).buffer@,
            final(self).protocol_id == old(self).protocol_id,
            match spec_read_string(old(self).buffer@, old(self).cursor as int) {
                Ok((chars, np)) => r matches Ok(s) && s@ == chars && final(self).cursor == np,
                Err((e, np)) => r matches Err(e2) && e2 == e && final(self).cursor == np,
            },
    {
        let length_signed: i32 = match self.read_varint() {
            Ok(v) => v,
            Err(e) => {
                return Err(e);
            },
        };
        if length_signed < 0 {
            return Err(PacketError::FramingError);
        }
        let length: usize = length_signed as usize;
        if self.cursor > self.buffer.len() || length > self.buffer.len() - self.cursor {
            return Err(PacketError::FramingError);
        }
        let mut raw: Vec<u8> = Vec::new();
        let mut i: usize = 0;
        while i < length
            invariant
                i <= length,
                raw@ == self.buffer@.subrange(self.cursor as int, self.cursor + i as int),
            decreases length - i,
        {
            raw.push(self.buffer[self.cursor + i]);
            proof {
                assert(raw@ =~= self.buffer@.subrange(self.cursor as int, self.cursor + i + 1));
            }
            i = i + 1;
        }
        match string_from_utf8(raw) {
            Some(s) => {
                self.cursor = self.cursor + length;
                Ok(s)
            },
            None => Err(PacketError::EncodingError),
        }
    }
}

/// Law: every string whose UTF-8 form is shorter than 2^31 bytes survives a
/// write / read round trip. Wherever a buffer holds, at `pos`, exactly the
/// bytes that `write_string` appends for `s` — the varint byte length
/// followed by the UTF-8 bytes — `read_string` decodes those bytes back to
/// `s` and stops just past them.
pub proof fn lemma_string_round_trip(s: Seq<char>, bytes: Seq<u8>, pos: int)
    requires
        encode_utf8(s).len() < 0x8000_0000,
        0 <= pos,
        pos + varint_enc(encode_utf8(s).len() as u32).len() + encode_utf8(s).len()
            <= bytes.len(),
        bytes.subrange(
            pos,
            pos + varint_enc(encode_utf8(s).len() as u32).len() + encode_utf8(s).len(),
        ) == varint_enc(encode_utf8(s).len() as u32) + encode_utf8(s),
    ensures
        spec_read_string(bytes, pos) == Ok::<(Seq<char>, int), (PacketError, int)>(
            (
                s,
                pos + varint_enc(encode_utf8(s).len() as u32).len() + encode_utf8(s).len(),
            ),
        ),
{
    let blen = encode_utf8(s).len() as int;
    let enc = varint_enc(encode_utf8(s).len() as u32);
    let k = enc.len() as int;
    let whole = bytes.subrange(pos, pos + k + blen);
    assert(bytes.subrange(pos, pos + k) =~= enc) by {
        assert forall|i: int| 0 <= i < k implies bytes.subrange(pos, pos + k)[i] == enc[i] by {
            assert(whole[i] == (enc + encode_utf8(s))[i]);
        }
    }
    lemma_varint_round_trip(blen as i32, bytes, pos);
    assert(spec_read_varint(bytes, pos) == Ok::<(int, int), int>((blen, pos + k)));
    assert(bytes.subrange(pos + k, pos + k + blen) =~= encode_utf8(s)) by {
        assert forall|i: int| 0 <= i < blen implies bytes.subrange(pos + k, pos + k + blen)[i]
            == encode_utf8(s)[i] by {
            assert(whole[k + i] == (enc + encode_utf8(s))[k + i]);
        }
    }
    encode_utf8_valid_utf8(s);
    encode_utf8_decode_utf8(s);
}

} // verus!
