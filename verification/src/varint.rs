//! The wire format's variable-length integer: base-128 groups in
//! little-endian order, one continuation bit (0x80) and seven data bits
//! (0x7F) per byte, at most five groups for a 32-bit value.

use vstd::prelude::*;

verus! {

/// The varint encoding of an unsigned 32-bit value: seven data bits per
/// byte, least-significant group first, continuation bit set on every byte
/// but the last.
pub open spec fn varint_enc(n: u32) -> Seq<u8>
    decreases n,
{
    if n < 128 {
        seq![n as u8]
    } else {
        seq![(n % 128 + 128) as u8] + varint_enc(n / 128)
    }
}

/// The value held by a sequence of varint groups, each contributing its
/// seven data bits, least-significant group first. The continuation bits do
/// not affect the value.
pub open spec fn varint_val(groups: Seq<u8>) -> int
    decreases groups.len(),
{
    if groups.len() == 0 {
        0
    } else {
        (groups[0] % 128) + 128 * varint_val(groups.drop_first())
    }
}

/// How many bytes the varint beginning at `pos` occupies, if a byte with a
/// clear continuation bit appears within the next `limit` bytes of the
/// sequence; `None` if the sequence ends, or `limit` is exhausted, first.
pub open spec fn varint_scan(bytes: Seq<u8>, pos: int, limit: int) -> Option<int>
    decreases limit,
{
    if limit <= 0 {
        None
    } else if pos < 0 || pos >= bytes.len() {
        None
    } else if bytes[pos] < 128 {
        Some(1)
    } else {
        match varint_scan(bytes, pos + 1, limit - 1) {
            None => None,
            Some(k) => Some(k + 1),
        }
    }
}

/// The unsigned 32-bit interpretation of a signed 32-bit value.
pub open spec fn unsigned32(v: int) -> int
    recommends
        -0x8000_0000 <= v < 0x8000_0000,
{
    if v < 0 {
        v + 0x1_0000_0000
    } else {
        v
    }
}

/// The signed 32-bit interpretation of an unsigned 32-bit value.
pub open spec fn signed32(m: int) -> int
    recommends
        0 <= m < 0x1_0000_0000,
{
    if m < 0x8000_0000 {
        m
    } else {
        m - 0x1_0000_0000
    }
}

/// The outcome of decoding a varint that starts at `pos`: on success, the
/// decoded signed 32-bit value and the position just past the varint; on
/// failure, the position at which decoding gave up. Decoding fails when no
/// byte with a clear continuation bit appears among the next five bytes
/// inside the sequence; a fifth group keeps only the data bits that still
/// fit in 32 bits.
pub open spec fn spec_read_varint(bytes: Seq<u8>, pos: int) -> Result<(int, int), int> {
    match varint_scan(bytes, pos, 5) {
        None => Err(
            if pos >= bytes.len() {
                pos
            } else if pos + 5 <= bytes.len() {
                pos + 5
            } else {
                bytes.len() as int
            },
        ),
        Some(k) => Ok(
            (signed32(varint_val(bytes.subrange(pos, pos + k)) % 0x1_0000_0000), pos + k),
        ),
    }
}

/// 128 raised to the `k`th power: the weight of the `k`th varint group.
pub open spec fn pow128(k: nat) -> int
    decreases k,
{
    if k == 0 {
        1
    } else {
        128 * pow128((k - 1) as nat)
    }
}

/// An encoded varint has between one and five groups, every group but the
/// last carries the continuation bit, the last does not, and the groups
/// decode to the encoded value.
pub proof fn lemma_varint_enc_props(n: u32)
    ensures
        1 <= varint_enc(n).len() <= 5,
        forall|i: int| 0 <= i < varint_enc(n).len() - 1 ==> varint_enc(n)[i] >= 128,
        varint_enc(n)[varint_enc(n).len() - 1] < 128,
        varint_val(varint_enc(n)) == n,
    decreases n,
{
    lemma_u32_below_pow128_5(n);
    lemma_varint_enc_len(n, 5);
    if n < 128 {
        assert(varint_enc(n) =~= seq![n as u8]);
        assert(seq![n as u8].drop_first() =~= Seq::<u8>::empty());
        assert(varint_val(Seq::<u8>::empty()) == 0);
        assert(varint_val(varint_enc(n)) == n % 128);
    } else {
        let first: u8 = (n % 128 + 128) as u8;
        let rest = varint_enc(n / 128);
        lemma_varint_enc_props(n / 128);
        assert(varint_enc(n) =~= seq![first] + rest);
        assert((seq![first] + rest).drop_first() =~= rest);
        assert(varint_val(varint_enc(n)) == (first % 128) + 128 * varint_val(rest));
        assert(first % 128 == n % 128);
        assert(n % 128 + 128 * (n / 128) == n);
    }
}

/// A value below the `k`th power of 128 encodes in at most `k` groups.
pub proof fn lemma_varint_enc_len(n: u32, k: nat)
    requires
        k >= 1,
        n < pow128(k),
    ensures
        varint_enc(n).len() <= k,
    decreases k,
{
    if n >= 128 {
        assert(pow128(k) == 128 * pow128((k - 1) as nat));
        assert(n / 128 < pow128((k - 1) as nat));
        lemma_varint_enc_len(n / 128, (k - 1) as nat);
    }
}

/// The first six powers of 128, written out.
pub proof fn lemma_pow128_values()
    ensures
        pow128(0) == 1,
        pow128(1) == 128,
        pow128(2) == 0x4000,
        pow128(3) == 0x20_0000,
        pow128(4) == 0x1000_0000,
        pow128(5) == 0x8_0000_0000,
{
    assert(pow128(0) == 1);
    assert(pow128(1) == 128);
    assert(pow128(2) == 0x4000);
    assert(pow128(3) == 0x20_0000);
    assert(pow128(4) == 0x1000_0000);
    assert(pow128(5) == 0x8_0000_0000);
}

/// Every unsigned 32-bit value lies below the fifth power of 128.
pub proof fn lemma_u32_below_pow128_5(n: u32)
    ensures
        n < pow128(5),
{
    lemma_pow128_values();
}

/// The value of a group sequence is bounded by the weight of its length.
pub proof fn lemma_varint_val_bound(groups: Seq<u8>)
    ensures
        0 <= varint_val(groups) < pow128(groups.len()),
    decreases groups.len(),
{
    if groups.len() == 0 {
    } else {
        lemma_varint_val_bound(groups.drop_first());
        assert(pow128(groups.len()) == 128 * pow128((groups.len() - 1) as nat));
    }
}

/// Appending a group adds its data bits at the weight of its position.
pub proof fn lemma_varint_val_push(groups: Seq<u8>, g: u8)
    ensures
        varint_val(groups.push(g)) == varint_val(groups) + (g % 128) * pow128(groups.len()),
    decreases groups.len(),
{
    if groups.len() == 0 {
        assert(groups.push(g) =~= seq![g]);
        assert(seq![g].drop_first() =~= Seq::<u8>::empty());
        assert(varint_val(Seq::<u8>::empty()) == 0);
        assert(varint_val(seq![g]) == g % 128);
    } else {
        lemma_varint_val_push(groups.drop_first(), g);
        assert(groups.push(g).drop_first() =~= groups.drop_first().push(g));
        assert(varint_val(groups.push(g)) == (groups[0] % 128) + 128 * varint_val(
            groups.drop_first().push(g),
        ));
        assert(pow128(groups.len()) == 128 * pow128((groups.len() - 1) as nat));
        assert(128 * (varint_val(groups.drop_first()) + (g % 128) * pow128(
            (groups.len() - 1) as nat,
        )) == 128 * varint_val(groups.drop_first()) + (g % 128) * pow128(groups.len()))
            by (nonlinear_arith)
            requires
                pow128(groups.len()) == 128 * pow128((groups.len() - 1) as nat),
        ;
    }
}

/// If the `k`th byte from `pos` is the first one without the continuation
/// bit, and it lies within both the sequence and the scan limit, the scan
/// finds exactly `k` groups.
pub proof fn lemma_scan_finds(bytes: Seq<u8>, pos: int, limit: int, k: int)
    requires
        0 <= pos,
        1 <= k <= limit,
        pos + k <= bytes.len(),
        forall|j: int| 0 <= j < k - 1 ==> #[trigger] bytes[pos + j] >= 128,
        bytes[pos + k - 1] < 128,
    ensures
        varint_scan(bytes, pos, limit) == Some(k),
    decreases k,
{
    if k == 1 {
    } else {
        assert(bytes[pos + 0] >= 128);
        assert forall|j: int| 0 <= j < k - 2 implies #[trigger] bytes[pos + 1 + j] >= 128 by {
            assert(bytes[pos + (j + 1)] >= 128);
        }
        lemma_scan_finds(bytes, pos + 1, limit - 1, k - 1);
    }
}

/// If every in-range byte the scan may visit carries the continuation bit,
/// the scan fails.
pub proof fn lemma_scan_is_none(bytes: Seq<u8>, pos: int, limit: int)
    requires
        0 <= pos,
        forall|j: int| 0 <= j < limit && pos + j < bytes.len() ==> #[trigger] bytes[pos + j] >= 128,
    ensures
        varint_scan(bytes, pos, limit) is None,
    decreases limit,
{
    if limit <= 0 {
    } else if pos >= bytes.len() {
    } else {
        assert(bytes[pos + 0] >= 128);
        assert forall|j: int| 0 <= j < limit - 1 && pos + 1 + j < bytes.len() implies #[trigger] bytes[
            pos + 1 + j] >= 128 by {
            assert(bytes[pos + (j + 1)] >= 128);
        }
        lemma_scan_is_none(bytes, pos + 1, limit - 1);
    }
}

/// A successful scan reports between one and `limit` groups, all of them in
/// range, every group but the last with the continuation bit set and the
/// last with it clear.
pub proof fn lemma_scan_props(bytes: Seq<u8>, pos: int, limit: int)
    requires
        varint_scan(bytes, pos, limit) is Some,
    ensures
        1 <= varint_scan(bytes, pos, limit)->0 <= limit,
        0 <= pos,
        pos + varint_scan(bytes, pos, limit)->0 <= bytes.len(),
        forall|j: int| 0 <= j < varint_scan(bytes, pos, limit)->0 - 1 ==> #[trigger] bytes[pos + j] >= 128,
        bytes[pos + varint_scan(bytes, pos, limit)->0 - 1] < 128,
    decreases limit,
{
    let k = varint_scan(bytes, pos, limit)->0;
    if bytes[pos] < 128 {
    } else {
        lemma_scan_props(bytes, pos + 1, limit - 1);
        let k1 = varint_scan(bytes, pos + 1, limit - 1)->0;
        assert(k == k1 + 1);
        assert forall|j: int| 0 <= j < k - 1 implies #[trigger] bytes[pos + j] >= 128 by {
            if j > 0 {
                assert(bytes[pos + 1 + (j - 1)] >= 128);
            }
        }
    }
}

/// Law: every value in the signed 32-bit non-negative range survives a
/// varint round trip. Wherever a buffer holds the encoding of `v` at `pos`,
/// the scan finds exactly the encoded groups and they decode back to `v`.
pub proof fn lemma_varint_round_trip(v: i32, bytes: Seq<u8>, pos: int)
    requires
        0 <= v,
        0 <= pos,
        pos + varint_enc(v as u32).len() <= bytes.len(),
        bytes.subrange(pos, pos + varint_enc(v as u32).len()) == varint_enc(v as u32),
    ensures
        varint_scan(bytes, pos, 5) == Some(varint_enc(v as u32).len() as int),
        signed32(varint_val(bytes.subrange(pos, pos + varint_enc(v as u32).len()))
            % 0x1_0000_0000) == v,
{
    let enc = varint_enc(v as u32);
    let k = enc.len() as int;
    lemma_varint_enc_props(v as u32);
    assert forall|j: int| 0 <= j < k - 1 implies #[trigger] bytes[pos + j] >= 128 by {
        assert(bytes[pos + j] == enc[j]);
    }
    assert(bytes[pos + k - 1] == enc[k - 1]);
    lemma_scan_finds(bytes, pos, 5, k);
    assert(varint_val(enc) == v);
    assert(0 <= v < 0x8000_0000);
    assert(varint_val(enc) % 0x1_0000_0000 == v);
}

} // verus!
