//! Bits of bytes and of symbols, the highest first.

use vstd::prelude::*;

verus! {

/// Bit `k` of a byte, counted from the lowest.
pub open spec fn byte_bit(b: u8, k: int) -> bool {
    (b >> (k as u8)) & 1u8 == 1u8
}

/// Bit `k` of a symbol, counted from the lowest.
pub open spec fn symbol_bit(s: u16, k: int) -> bool {
    (s >> (k as u16)) & 1u16 == 1u16
}

/// The bits of bytes, one after the other, the highest of each byte first.
pub open spec fn bits_of(bytes: Seq<u8>) -> Seq<bool> {
    Seq::new(8 * bytes.len(), |i: int| byte_bit(bytes[i / 8], 7 - i % 8))
}

/// The lowest `width` bits of symbols, one after the other, the highest of each symbol first.
pub open spec fn symbol_stream(symbols: Seq<u16>, width: nat) -> Seq<bool> {
    Seq::new(
        width * symbols.len(),
        |i: int| symbol_bit(symbols[i / (width as int)], width - 1 - i % (width as int)),
    )
}

/// The `width` bits from `from` on, and zeros where there are none.
pub open spec fn window(bits: Seq<bool>, from: int, width: nat) -> Seq<bool> {
    Seq::new(width, |k: int| 0 <= from + k < bits.len() && bits[from + k])
}

/// The number that bits spell, the highest first.
pub open spec fn number(bits: Seq<bool>) -> u16
    decreases bits.len(),
{
    if bits.len() == 0 {
        0
    } else {
        (number(bits.drop_last()) << 1u16) | (if bits.last() {
            1u16
        } else {
            0u16
        })
    }
}

/// The number of groups of `width` that hold `n`.
pub open spec fn groups(n: nat, width: nat) -> nat {
    ((n + width - 1) / (width as int)) as nat
}

proof fn lemma_append_bit(v: u16, b: u16, k: u16)
    requires
        b <= 1,
        k < 15,
    ensures
        ((v << 1u16) | b) & 1u16 == b,
        (((v << 1u16) | b) >> ((k + 1) as u16)) & 1u16 == (v >> k) & 1u16,
        ((v << 1u16) | b) >> 0u16 == (v << 1u16) | b,
{
    assert(b <= 1 && k < 15 ==> ((v << 1u16) | b) & 1u16 == b && (((v << 1u16) | b) >> ((k + 1)
        as u16)) & 1u16 == (v >> k) & 1u16 && ((v << 1u16) | b) >> 0u16 == (v << 1u16) | b)
        by (bit_vector);
}

/// The bits of a number are those that spell it.
pub proof fn lemma_number_bit(bits: Seq<bool>, k: int)
    requires
        bits.len() <= 16,
        0 <= k < bits.len(),
    ensures
        symbol_bit(number(bits), k) == bits[bits.len() - 1 - k],
    decreases bits.len(),
{
    let v = number(bits.drop_last());
    let b: u16 = if bits.last() {
        1
    } else {
        0
    };
    if k == 0 {
        lemma_append_bit(v, b, 0);
    } else {
        lemma_number_bit(bits.drop_last(), k - 1);
        lemma_append_bit(v, b, (k - 1) as u16);
    }
}

/// A number that is spelled by `n` bits is below `2^n`.
pub proof fn lemma_number_bound(bits: Seq<bool>)
    requires
        bits.len() <= 16,
    ensures
        bits.len() < 16 ==> number(bits) < (1u16 << (bits.len() as u16)),
        bits.len() == 8 ==> number(bits) < 256,
        bits.len() == 4 ==> number(bits) < 16,
        bits.len() == 10 ==> number(bits) < 1024,
    decreases bits.len(),
{
    if bits.len() == 0 {
        assert(0u16 < (1u16 << 0u16)) by (bit_vector);
    } else {
        lemma_number_bound(bits.drop_last());
        let v = number(bits.drop_last());
        let b: u16 = if bits.last() {
            1
        } else {
            0
        };
        let n = (bits.len() - 1) as u16;
        assert(n < 15 && v < (1u16 << n) && b <= 1 ==> ((v << 1u16) | b) < (1u16 << ((n + 1)
            as u16))) by (bit_vector);
        assert((1u16 << 8u16) == 256 && (1u16 << 4u16) == 16 && (1u16 << 10u16) == 1024)
            by (bit_vector);
    }
}

/// Two bytes with the same bits are the same.
pub proof fn lemma_byte_ext(a: u8, b: u8)
    requires
        forall|k: int| 0 <= k < 8 ==> #[trigger] byte_bit(a, k) == byte_bit(b, k),
    ensures
        a == b,
{
    assert(byte_bit(a, 0) == byte_bit(b, 0));
    assert(byte_bit(a, 1) == byte_bit(b, 1));
    assert(byte_bit(a, 2) == byte_bit(b, 2));
    assert(byte_bit(a, 3) == byte_bit(b, 3));
    assert(byte_bit(a, 4) == byte_bit(b, 4));
    assert(byte_bit(a, 5) == byte_bit(b, 5));
    assert(byte_bit(a, 6) == byte_bit(b, 6));
    assert(byte_bit(a, 7) == byte_bit(b, 7));
    assert(((a >> 0u8) & 1u8 == 1u8) == ((b >> 0u8) & 1u8 == 1u8) && ((a >> 1u8) & 1u8 == 1u8) == ((
    b >> 1u8) & 1u8 == 1u8) && ((a >> 2u8) & 1u8 == 1u8) == ((b >> 2u8) & 1u8 == 1u8) && ((a
        >> 3u8) & 1u8 == 1u8) == ((b >> 3u8) & 1u8 == 1u8) && ((a >> 4u8) & 1u8 == 1u8) == ((b
        >> 4u8) & 1u8 == 1u8) && ((a >> 5u8) & 1u8 == 1u8) == ((b >> 5u8) & 1u8 == 1u8) && ((a
        >> 6u8) & 1u8 == 1u8) == ((b >> 6u8) & 1u8 == 1u8) && ((a >> 7u8) & 1u8 == 1u8) == ((b
        >> 7u8) & 1u8 == 1u8) ==> a == b) by (bit_vector);
}

/// A byte as a symbol has the byte's bits.
proof fn lemma_byte_symbol(s: u16, k: int)
    requires
        s < 256,
        0 <= k < 8,
    ensures
        byte_bit(s as u8, k) == symbol_bit(s, k),
{
    let j = k as u8;
    let m = k as u16;
    assert(s < 256 && j < 8 && j as u16 == m ==> (((s as u8) >> j) & 1u8 == 1u8) == ((s >> m) & 1u16
        == 1u16)) by (bit_vector);
}

/// The byte that eight bits spell.
pub open spec fn byte_number(bits: Seq<bool>) -> u8 {
    number(bits) as u8
}

pub proof fn lemma_byte_number(bits: Seq<bool>, k: int)
    requires
        bits.len() == 8,
        0 <= k < 8,
    ensures
        byte_bit(byte_number(bits), k) == bits[7 - k],
{
    lemma_number_bit(bits, k);
    lemma_number_bound(bits);
    lemma_byte_symbol(number(bits), k);
}

/// Bytes that spell the bits of bytes are those bytes.
pub proof fn lemma_byte_back(bytes: Seq<u8>, stream: Seq<bool>, b: int)
    requires
        0 <= b < bytes.len(),
        stream.len() >= 8 * (b + 1),
        forall|i: int| 8 * b <= i < 8 * (b + 1) ==> #[trigger] stream[i] == bits_of(bytes)[i],
    ensures
        byte_number(window(stream, 8 * b, 8)) == bytes[b],
{
    let w = window(stream, 8 * b, 8);
    assert forall|k: int| 0 <= k < 8 implies #[trigger] byte_bit(byte_number(w), k) == byte_bit(
        bytes[b],
        k,
    ) by {
        lemma_byte_number(w, k);
        let i = 8 * b + (7 - k);
        assert(stream[i] == bits_of(bytes)[i]);
        assert(i / 8 == b && i % 8 == 7 - k);
    }
    lemma_byte_ext(byte_number(w), bytes[b]);
}

pub fn get_byte_bit(b: u8, k: u8) -> (r: bool)
    requires
        k < 8,
    ensures
        r == byte_bit(b, k as int),
{
    (b >> k) & 1 == 1
}

pub fn get_symbol_bit(s: u16, k: u16) -> (r: bool)
    requires
        k < 16,
    ensures
        r == symbol_bit(s, k as int),
{
    (s >> k) & 1 == 1
}

pub fn append_bit(v: u16, bit: bool) -> (r: u16)
    ensures
        r == (v << 1u16) | (if bit {
            1u16
        } else {
            0u16
        }),
{
    if bit {
        (v << 1) | 1
    } else {
        (v << 1) | 0
    }
}

/// The number of groups of `width` that hold `n`.
pub fn group_count(n: usize, width: usize) -> (r: usize)
    requires
        width > 0,
        n + width <= usize::MAX,
    ensures
        r == groups(n as nat, width as nat),
{
    (n + width - 1) / width
}

/// A byte is the sum of the powers of two whose bits are set.
pub proof fn law_byte_is_its_bits(b: u8)
    ensures
        b == (if byte_bit(b, 7) { 128int } else { 0 }) + (if byte_bit(b, 6) { 64int } else { 0 })
            + (if byte_bit(b, 5) { 32int } else { 0 }) + (if byte_bit(b, 4) { 16int } else { 0 })
            + (if byte_bit(b, 3) { 8int } else { 0 }) + (if byte_bit(b, 2) { 4int } else { 0 })
            + (if byte_bit(b, 1) { 2int } else { 0 }) + (if byte_bit(b, 0) { 1int } else { 0 }),
{
    assert(b == 128 * ((b >> 7u8) & 1u8) + 64 * ((b >> 6u8) & 1u8) + 32 * ((b >> 5u8) & 1u8) + 16 * ((
    b >> 4u8) & 1u8) + 8 * ((b >> 3u8) & 1u8) + 4 * ((b >> 2u8) & 1u8) + 2 * ((b >> 1u8) & 1u8) + ((
    b >> 0u8) & 1u8) && (b >> 7u8) & 1u8 <= 1 && (b >> 6u8) & 1u8 <= 1 && (b >> 5u8) & 1u8 <= 1 && (b
        >> 4u8) & 1u8 <= 1 && (b >> 3u8) & 1u8 <= 1 && (b >> 2u8) & 1u8 <= 1 && (b >> 1u8) & 1u8 <= 1
        && (b >> 0u8) & 1u8 <= 1) by (bit_vector);
}

/// A bit appended doubles a number and adds itself; no bits spell zero.
pub proof fn law_number_doubles(bits: Seq<bool>, last: bool)
    requires
        bits.len() < 16,
    ensures
        number(Seq::empty()) == 0,
        number(bits.push(last)) == 2 * number(bits) + (if last { 1int } else { 0 }),
{
    let v = number(bits);
    let b: u16 = if last {
        1
    } else {
        0
    };
    assert(bits.push(last).drop_last() =~= bits);
    lemma_number_bound(bits);
    if bits.len() < 15 {
        lemma_number_below(bits);
    }
    lemma_number_below(bits);
    assert(v < 0x8000 && b <= 1 ==> (v << 1u16) | b == 2 * v + b) by (bit_vector);
}

proof fn lemma_number_below(bits: Seq<bool>)
    requires
        bits.len() <= 15,
    ensures
        number(bits) < 0x8000,
{
    lemma_number_bound(bits);
    let n = bits.len() as u16;
    assert(n <= 15 ==> (1u16 << n) <= 0x8000) by (bit_vector);
}

/// The groups hold everything, and one less would not.
pub proof fn law_groups_are_fewest(n: nat, width: nat)
    requires
        width > 0,
    ensures
        n <= groups(n, width) * width,
        n > 0 ==> (groups(n, width) - 1) * width < n,
        n == 0 ==> groups(n, width) == 0,
{
    let w = width as int;
    let g = (n + w - 1) / w;
    vstd::arithmetic::div_mod::lemma_fundamental_div_mod(n + w - 1, w);
    assert(n <= g * w && (g - 1) * w < n + 0 && g >= 0) by (nonlinear_arith)
        requires
            w > 0,
            n >= 0,
            n + w - 1 == w * g + (n + w - 1) % w,
            0 <= (n + w - 1) % w < w,
    ;
    if n == 0 {
        assert(g == 0) by (nonlinear_arith)
            requires
                w > 0,
                w - 1 == w * g + (w - 1) % w,
                0 <= (w - 1) % w < w,
                g >= 0,
        ;
    }
}

} // verus!
