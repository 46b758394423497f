//! The checksum at the end of a frame.

use vstd::prelude::*;

verus! {

/// One bit through the shift register of the reflected polynomial 0xEDB88320.
pub open spec fn crc_bit(c: u32) -> u32 {
    if c & 1u32 == 1u32 {
        (c >> 1u32) ^ 0xEDB88320u32
    } else {
        c >> 1u32
    }
}

/// Eight bits through the register.
pub open spec fn crc_shift(c: u32) -> u32 {
    crc_bit(crc_bit(crc_bit(crc_bit(crc_bit(crc_bit(crc_bit(crc_bit(c))))))))
}

/// The register, from a given state on, after the bytes.
pub open spec fn crc_register(start: u32, data: Seq<u8>) -> u32
    decreases data.len(),
{
    if data.len() == 0 {
        start
    } else {
        crc_shift(crc_register(start, data.drop_last()) ^ (data.last() as u32))
    }
}

/// The CRC-32 of IEEE 802.3: the register starts with all ones and is inverted at the end.
pub open spec fn crc32_ieee(data: Seq<u8>) -> u32 {
    !crc_register(0xFFFFFFFFu32, data)
}

/// Calls `crc32fast::hash`, which computes the CRC-32 of IEEE 802.3 of a byte slice.
#[verifier::external_body]
pub(crate) fn crc32(data: &[u8]) -> (r: u32)
    ensures
        r == crc32_ieee(data@),
{
    crc32fast::hash(data)
}

proof fn lemma_shift_injective(a: u32, b: u32)
    requires
        a != b,
    ensures
        crc_shift(a) != crc_shift(b),
{
    assert(forall|x: u32, y: u32| x != y ==> #[trigger] crc_bit(x) != #[trigger] crc_bit(y)) by {
        assert forall|x: u32, y: u32| x != y implies #[trigger] crc_bit(x) != #[trigger] crc_bit(y) by {
            assert(x != y ==> crc_bit(x) != crc_bit(y)) by (bit_vector);
        }
    }
}

/// Bits above the lowest eight only move down.
proof fn lemma_shift_high(c: u32, d: u32)
    requires
        d < 0x1000000,
    ensures
        crc_shift(c ^ (d << 8u32)) == crc_shift(c) ^ d,
{
    assert(d < 0x1000000 ==> crc_shift(c ^ (d << 8u32)) == crc_shift(c) ^ d) by (bit_vector);
}

/// Four bytes as one little-endian word.
spec fn word(a: u8, b: u8, c: u8, d: u8) -> u32 {
    (a as u32) ^ (((b as u32) ^ (((c as u32) ^ ((d as u32) << 8u32)) << 8u32)) << 8u32)
}

proof fn lemma_four_bytes(s: u32, a: u8, b: u8, c: u8, d: u8)
    ensures
        crc_shift(crc_shift(crc_shift(crc_shift(s ^ (a as u32)) ^ (b as u32)) ^ (c as u32)) ^ (
        d as u32)) == crc_shift(crc_shift(crc_shift(crc_shift(s ^ word(a, b, c, d))))),
{
    let d1 = d as u32;
    let c1 = (c as u32) ^ (d1 << 8u32);
    let b1 = (b as u32) ^ (c1 << 8u32);
    let (ca, cb, cc) = (a as u32, b as u32, c as u32);
    assert(d1 < 0x100 && cc < 0x100 && cb < 0x100 && c1 == cc ^ (d1 << 8u32) && b1 == cb ^ (c1
        << 8u32) ==> c1 < 0x10000 && b1 < 0x1000000) by (bit_vector);
    lemma_shift_high(s ^ ca, b1);
    lemma_xor_assoc(s, ca, b1 << 8u32);
    let s1 = crc_shift(s ^ ca);
    lemma_xor_assoc(s1, cb, c1 << 8u32);
    lemma_shift_high(s1 ^ cb, c1);
    let s2 = crc_shift(s1 ^ cb);
    lemma_xor_assoc(s2, cc, d1 << 8u32);
    lemma_shift_high(s2 ^ cc, d1);
}

proof fn lemma_xor_assoc(a: u32, b: u32, c: u32)
    ensures
        (a ^ b) ^ c == a ^ (b ^ c),
{
    assert((a ^ b) ^ c == a ^ (b ^ c)) by (bit_vector);
}

proof fn lemma_xor_left(a: u32, b: u32, c: u32)
    requires
        b != c,
    ensures
        a ^ b != a ^ c,
{
    assert(b != c ==> a ^ b != a ^ c) by (bit_vector);
}

proof fn lemma_register_concat(start: u32, a: Seq<u8>, b: Seq<u8>)
    ensures
        crc_register(start, a + b) == crc_register(crc_register(start, a), b),
    decreases b.len(),
{
    if b.len() == 0 {
        assert(a + b =~= a);
    } else {
        assert((a + b).drop_last() =~= a + b.drop_last());
        lemma_register_concat(start, a, b.drop_last());
    }
}

/// Registers that differ stay different when they take in the same bytes.
proof fn lemma_register_injective(s: u32, t: u32, data: Seq<u8>)
    requires
        s != t,
    ensures
        crc_register(s, data) != crc_register(t, data),
    decreases data.len(),
{
    if data.len() > 0 {
        let rest = data.drop_last();
        lemma_register_injective(s, t, rest);
        let x = crc_register(s, rest);
        let y = crc_register(t, rest);
        let b = data.last() as u32;
        assert(x != y ==> x ^ b != y ^ b) by (bit_vector);
        lemma_shift_injective(x ^ b, y ^ b);
    }
}

proof fn lemma_register_four(s: u32, d: Seq<u8>)
    requires
        d.len() == 4,
    ensures
        crc_register(s, d) == crc_shift(
            crc_shift(crc_shift(crc_shift(s ^ word(d[0], d[1], d[2], d[3])))),
        ),
{
    let d3 = d.drop_last();
    let d2 = d3.drop_last();
    let d1 = d2.drop_last();
    assert(crc_register(s, d1.drop_last()) == s);
    assert(crc_register(s, d1) == crc_shift(s ^ (d[0] as u32)));
    assert(crc_register(s, d2) == crc_shift(crc_register(s, d1) ^ (d[1] as u32)));
    assert(crc_register(s, d3) == crc_shift(crc_register(s, d2) ^ (d[2] as u32)));
    lemma_four_bytes(s, d[0], d[1], d[2], d[3]);
}

/// Two byte strings of one length that differ, and only within four bytes in a row, have
/// different checksums.
pub proof fn law_short_burst_changes_checksum(a: Seq<u8>, b: Seq<u8>, at: int)
    requires
        a.len() == b.len(),
        a != b,
        0 <= at,
        at + 4 <= a.len(),
        forall|i: int| 0 <= i < a.len() && !(at <= i < at + 4) ==> #[trigger] a[i] == b[i],
    ensures
        crc32_ieee(a) != crc32_ieee(b),
{
    let n = a.len() as int;
    let pre = a.take(at);
    let post = a.skip(at + 4);
    let ma = a.subrange(at, at + 4);
    let mb = b.subrange(at, at + 4);
    assert(b.take(at) =~= pre);
    assert(b.skip(at + 4) =~= post);
    assert(a =~= pre + ma + post);
    assert(b =~= pre + mb + post);
    let start = 0xFFFFFFFFu32;
    lemma_register_concat(start, pre + ma, post);
    lemma_register_concat(start, pre + mb, post);
    lemma_register_concat(start, pre, ma);
    lemma_register_concat(start, pre, mb);
    let s = crc_register(start, pre);
    lemma_register_four(s, ma);
    lemma_register_four(s, mb);
    let wa = word(ma[0], ma[1], ma[2], ma[3]);
    let wb = word(mb[0], mb[1], mb[2], mb[3]);
    if wa == wb {
        lemma_word_injective(
            ma[0],
            ma[1],
            ma[2],
            ma[3],
            mb[0],
            mb[1],
            mb[2],
            mb[3],
        );
        assert(ma =~= mb);
    }
    lemma_xor_left(s, wa, wb);
    lemma_shift_injective(s ^ wa, s ^ wb);
    lemma_shift_injective(crc_shift(s ^ wa), crc_shift(s ^ wb));
    lemma_shift_injective(crc_shift(crc_shift(s ^ wa)), crc_shift(crc_shift(s ^ wb)));
    lemma_shift_injective(
        crc_shift(crc_shift(crc_shift(s ^ wa))),
        crc_shift(crc_shift(crc_shift(s ^ wb))),
    );
    let x = crc_register(s, ma);
    let y = crc_register(s, mb);
    lemma_register_injective(x, y, post);
    let p = crc_register(x, post);
    let q = crc_register(y, post);
    assert(p != q ==> !p != !q) by (bit_vector);
}

proof fn lemma_word_injective(a: u8, b: u8, c: u8, d: u8, e: u8, f: u8, g: u8, h: u8)
    requires
        word(a, b, c, d) == word(e, f, g, h),
    ensures
        a == e,
        b == f,
        c == g,
        d == h,
{
    assert(word(a, b, c, d) == word(e, f, g, h) ==> a == e && b == f && c == g && d == h)
        by (bit_vector);
}

/// Bytes with their own checksum behind them, the lowest byte first, all have one and the same
/// checksum.
pub proof fn law_checksum_of_a_checked_string(data: Seq<u8>, tail: Seq<u8>)
    requires
        tail.len() == 4,
        tail[0] + tail[1] * 0x100 + tail[2] * 0x10000 + tail[3] * 0x1000000 == crc32_ieee(data),
    ensures
        crc32_ieee(data + tail) == 0x2144DF1C,
{
    let s = crc_register(0xFFFFFFFFu32, data);
    let (a, b, c, d) = (tail[0], tail[1], tail[2], tail[3]);
    lemma_register_concat(0xFFFFFFFFu32, data, tail);
    lemma_register_four(s, tail);
    assert(s ^ word(a, b, c, d) == 0xFFFFFFFFu32 && crc_shift(0xFFFFFFFFu32) == 0x2DFD1072u32
        && crc_shift(0x2DFD1072u32) == 0xBE26ED00u32 && crc_shift(0xBE26ED00u32) == 0x00BE26EDu32
        && crc_shift(0x00BE26EDu32) == 0xDEBB20E3u32 && !0xDEBB20E3u32 == 0x2144DF1Cu32)
        by (bit_vector)
        requires
            a + b * 0x100 + c * 0x10000 + d * 0x1000000 == !s,
    ;
}

} // verus!
