//! Modulators: bytes to symbols and back, and the rules by which a receiver reads a frame.
//!
//! A frame on the air starts with a preamble and says its own length, three times over, so a
//! receiver never guesses it. What the bytes mean is known to the framing alone.

use vstd::prelude::*;

pub mod bits;
pub mod css;
pub mod css_reader;
pub mod edge;
pub mod mfsk;
pub mod ofdm;
pub mod qam;
pub mod reader;

verus! {

/// How far the reception of a frame has come.
#[derive(Debug, Clone, Copy, PartialEq, Eq, Structural)]
pub enum ModemState {
    /// Nothing but silence or noise.
    Idle,
    /// There is energy, and a preamble is looked for.
    Searching,
    /// The preamble was found.
    Synced,
    /// The body is read.
    Decoding,
}

/// The symbols of `sf` bits that bytes are packed into, the last one filled up with zeros.
pub open spec fn packed(bytes: Seq<u8>, sf: nat) -> Seq<u16> {
    Seq::new(
        bits::groups(8 * bytes.len(), sf),
        |i: int| bits::number(bits::window(bits::bits_of(bytes), i * sf, sf)),
    )
}

/// The bytes that symbols of `sf` bits hold, no more than `nbytes`.
pub open spec fn unpacked(symbols: Seq<u16>, sf: nat, nbytes: nat) -> Seq<u8> {
    let held = sf * symbols.len() / 8;
    Seq::new(
        if held <= nbytes {
            held
        } else {
            nbytes
        },
        |b: int| bits::byte_number(bits::window(bits::symbol_stream(symbols, sf), 8 * b, 8)),
    )
}

/// The bits of packed symbols are those of the bytes.
proof fn lemma_packed_bit(bytes: Seq<u8>, sf: nat, i: int)
    requires
        1 <= sf <= 16,
        0 <= i < 8 * bytes.len(),
    ensures
        i < sf * packed(bytes, sf).len(),
        bits::symbol_stream(packed(bytes, sf), sf)[i] == bits::bits_of(bytes)[i],
{
    let n = 8 * bytes.len();
    let w = sf as int;
    let q = i / w;
    let k = i % w;
    vstd::arithmetic::div_mod::lemma_fundamental_div_mod(i, w);
    vstd::arithmetic::div_mod::lemma_fundamental_div_mod(n + w - 1, w);
    let g = bits::groups(n, sf) as int;
    let m = (n + w - 1) % w;
    assert(0 <= q < g && g * w >= n && w * g >= n && q * w + k == i && g >= 0) by (nonlinear_arith)
        requires
            w > 0,
            0 <= i < n,
            i == w * q + k,
            0 <= k < w,
            n + w - 1 == w * g + m,
            0 <= m < w,
    ;
    let win = bits::window(bits::bits_of(bytes), q * sf, sf);
    bits::lemma_number_bit(win, w - 1 - k);
}

/// Unpacking what was packed gives the bytes back.
pub proof fn law_unpack_pack(bytes: Seq<u8>, sf: nat)
    requires
        1 <= sf <= 16,
    ensures
        unpacked(packed(bytes, sf), sf, bytes.len()) == bytes,
{
    let s = packed(bytes, sf);
    let st = bits::symbol_stream(s, sf);
    let n = bytes.len();
    if n > 0 {
        lemma_packed_bit(bytes, sf, 8 * n - 1);
    }
    assert(sf * s.len() >= 8 * n);
    assert forall|b: int| 0 <= b < n implies unpacked(s, sf, n)[b] == bytes[b] by {
        assert forall|i: int| 8 * b <= i < 8 * (b + 1) implies #[trigger] st[i] == bits::bits_of(
            bytes,
        )[i] by {
            lemma_packed_bit(bytes, sf, i);
        }
        bits::lemma_byte_back(bytes, st, b);
    }
    assert(unpacked(s, sf, n) =~= bytes);
}

/// A symbol of so many bits is below that power of two.
pub proof fn law_symbols_fit(bytes: Seq<u8>, sf: nat, i: int)
    requires
        1 <= sf <= 16,
        0 <= i < packed(bytes, sf).len(),
    ensures
        sf < 16 ==> packed(bytes, sf)[i] < (1u16 << (sf as u16)),
{
    bits::lemma_number_bound(bits::window(bits::bits_of(bytes), i * sf, sf));
}

/// Packs bytes into symbols of `sf` bits, the highest bit first.
pub fn bytes_to_symbols(bytes: &[u8], sf: u32) -> (r: Vec<u16>)
    requires
        1 <= sf <= 16,
        8 * bytes@.len() + 16 <= usize::MAX,
    ensures
        r@ == packed(bytes@, sf as nat),
{
    let total: usize = bytes.len() * 8;
    let width: usize = sf as usize;
    let count: usize = bits::group_count(total, width);
    let ghost stream = bits::bits_of(bytes@);
    let ghost want = packed(bytes@, sf as nat);
    let mut symbols: Vec<u16> = Vec::with_capacity(count);
    let mut at: usize = 0;
    proof {
        vstd::arithmetic::div_mod::lemma_fundamental_div_mod(total + width - 1, width as int);
    }
    while symbols.len() < count
        invariant
            1 <= width <= 16,
            width == sf,
            total == 8 * bytes@.len(),
            total + 16 <= usize::MAX,
            stream == bits::bits_of(bytes@),
            want == packed(bytes@, sf as nat),
            want.len() == count,
            total + width - 1 == width * count + (total + width - 1) % (width as int),
            0 <= (total + width - 1) % (width as int) < width,
            symbols@.len() <= count,
            at == symbols@.len() * width,
            symbols@ == want.take(symbols@.len() as int),
        decreases count - symbols@.len(),
    {
        let ghost q = symbols@.len() as int;
        proof {
            assert(q * width + width <= width * count) by (nonlinear_arith)
                requires
                    q + 1 <= count,
            ;
        }
        let ghost win = bits::window(stream, q * (sf as nat), sf as nat);
        let mut v: u16 = 0;
        let mut k: usize = 0;
        while k < width
            invariant
                k <= width <= 16,
                at + width <= total + 15,
                total + 16 <= usize::MAX,
                total == 8 * bytes@.len(),
                stream == bits::bits_of(bytes@),
                win == bits::window(stream, at as int, width as nat),
                v == bits::number(win.take(k as int)),
            decreases width - k,
        {
            let i: usize = at + k;
            let bit: bool = if i < total {
                bits::get_byte_bit(bytes[i / 8], (7 - i % 8) as u8)
            } else {
                false
            };
            assert(bit == win[k as int]);
            assert(win.take(k + 1).drop_last() =~= win.take(k as int));
            v = bits::append_bit(v, bit);
            k += 1;
        }
        assert(win.take(k as int) =~= win);
        symbols.push(v);
        at = at + width;
        proof {
            assert((q + 1) * width == q * width + width) by (nonlinear_arith);
            assert(symbols@ =~= want.take(q + 1));
        }
    }
    assert(want.take(count as int) =~= want);
    symbols
}

/// Takes bytes out of symbols of `sf` bits, no more than `nbytes` of them.
pub fn symbols_to_bytes(symbols: &[u16], sf: u32, nbytes: usize) -> (r: Vec<u8>)
    requires
        1 <= sf <= 16,
        sf * symbols@.len() <= usize::MAX,
    ensures
        r@ == unpacked(symbols@, sf as nat, nbytes as nat),
{
    let width: usize = sf as usize;
    let held: usize = width * symbols.len() / 8;
    let count: usize = if held <= nbytes {
        held
    } else {
        nbytes
    };
    let ghost stream = bits::symbol_stream(symbols@, sf as nat);
    let ghost want = unpacked(symbols@, sf as nat, nbytes as nat);
    let mut out: Vec<u8> = Vec::with_capacity(count);
    while out.len() < count
        invariant
            1 <= width <= 16,
            width == sf,
            count <= width * symbols@.len() / 8,
            width * symbols@.len() <= usize::MAX,
            stream == bits::symbol_stream(symbols@, sf as nat),
            want == unpacked(symbols@, sf as nat, nbytes as nat),
            want.len() == count,
            out@.len() <= count,
            out@ == want.take(out@.len() as int),
        decreases count - out@.len(),
    {
        let ghost b = out@.len() as int;
        let at: usize = out.len() * 8;
        let ghost win = bits::window(stream, 8 * b, 8);
        let mut v: u16 = 0;
        let mut k: usize = 0;
        while k < 8
            invariant
                k <= 8,
                1 <= width <= 16,
                width == sf,
                at + 8 <= width * symbols@.len() <= usize::MAX,
                stream == bits::symbol_stream(symbols@, sf as nat),
                win == bits::window(stream, at as int, 8),
                v == bits::number(win.take(k as int)),
            decreases 8 - k,
        {
            let i: usize = at + k;
            proof {
                let w = width as int;
                let n = symbols@.len() as int;
                let q = i as int / w;
                vstd::arithmetic::div_mod::lemma_fundamental_div_mod(i as int, w);
                assert(q < n) by (nonlinear_arith)
                    requires
                        i < w * n,
                        i == w * q + i as int % w,
                        0 <= i as int % w,
                        w > 0,
                ;
            }
            let bit: bool = bits::get_symbol_bit(symbols[i / width], (width - 1 - i % width) as u16);
            assert(bit == win[k as int]);
            assert(win.take(k + 1).drop_last() =~= win.take(k as int));
            v = bits::append_bit(v, bit);
            k += 1;
        }
        assert(win.take(k as int) =~= win);
        out.push(v as u8);
        assert(out@ =~= want.take(b + 1));
    }
    assert(want.take(count as int) =~= want);
    out
}

/// Symbols of eight bits are the bytes themselves.
pub proof fn law_eight_bits_are_a_byte(bytes: Seq<u8>)
    ensures
        packed(bytes, 8).len() == bytes.len(),
        forall|i: int| 0 <= i < bytes.len() ==> #[trigger] packed(bytes, 8)[i] == bytes[i],
{
    assert forall|i: int| 0 <= i < bytes.len() implies #[trigger] packed(bytes, 8)[i] == bytes[i] by {
        let w = bits::window(bits::bits_of(bytes), 8 * i, 8);
        bits::lemma_byte_back(bytes, bits::bits_of(bytes), i);
        bits::lemma_number_bound(w);
    }
}

/// Whatever their width, symbols carry the bits of the bytes in order, the highest of each first:
/// bit `j` of symbol `i` is the bit of the bytes with number `i * sf + j`, or zero behind the end.
pub proof fn law_symbols_carry_the_bits(bytes: Seq<u8>, sf: nat, i: int, j: int)
    requires
        1 <= sf <= 16,
        0 <= i < packed(bytes, sf).len(),
        0 <= j < sf,
    ensures
        ({
            let q = i * sf + j;
            bits::symbol_bit(packed(bytes, sf)[i], sf - 1 - j) == (q < 8 * bytes.len()
                && bits::byte_bit(bytes[q / 8], 7 - q % 8))
        }),
{
    let w = bits::window(bits::bits_of(bytes), i * sf, sf);
    bits::lemma_number_bit(w, sf - 1 - j);
    assert(i * sf >= 0) by (nonlinear_arith)
        requires
            i >= 0,
            sf >= 0,
    ;
}

/// As many whole bytes are taken out of symbols as they hold, and no more than are asked for; bit
/// `j` of byte `b` is the bit of the symbols with number `8 * b + j`.
pub proof fn law_bytes_carry_the_bits(symbols: Seq<u16>, sf: nat, nbytes: nat, b: int, j: int)
    requires
        1 <= sf <= 16,
        0 <= j < 8,
    ensures
        ({
            let out = unpacked(symbols, sf, nbytes);
            let q = 8 * b + j;
            let w = sf as int;
            &&& out.len() <= nbytes
            &&& 8 * out.len() <= sf * symbols.len()
            &&& out.len() == nbytes || 8 * (out.len() + 1) > sf * symbols.len()
            &&& 0 <= b < out.len() ==> bits::byte_bit(out[b], 7 - j) == bits::symbol_bit(
                symbols[q / w],
                w - 1 - q % w,
            )
        }),
{
    let out = unpacked(symbols, sf, nbytes);
    if 0 <= b < out.len() {
        let stream = bits::symbol_stream(symbols, sf);
        bits::lemma_byte_number(bits::window(stream, 8 * b, 8), 7 - j);
    }
}

} // verus!
