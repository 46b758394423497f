//! Constellations of four and sixteen points in Gray code.
//!
//! Neighbouring points differ in one bit, so a wrong decision in noise spoils as few bits as
//! possible. Coordinates are whole numbers: the levels -1 and 1 of four points, and the levels
//! -3, -1, 1 and 3 of sixteen. Whoever sends a point scales it to unit power.

use vstd::prelude::*;
use crate::modem::bits;

verus! {

#[derive(Debug, Clone, Copy, PartialEq, Eq, Structural)]
pub enum Modulation {
    Qpsk,
    Qam16,
}

impl Modulation {
    /// The bits that one point carries.
    pub open spec fn width(self) -> nat {
        match self {
            Modulation::Qpsk => 2,
            Modulation::Qam16 => 4,
        }
    }

    pub fn bits_per_symbol(self) -> (r: usize)
        ensures
            r == self.width(),
    {
        match self {
            Modulation::Qpsk => 2,
            Modulation::Qam16 => 4,
        }
    }
}

/// A point of the plane in units of the level. A received point is given by the largest whole
/// numbers that are not above its coordinates, which is all that the decisions depend on.
#[derive(Debug, Clone, Copy, PartialEq, Eq, Structural)]
pub struct Point {
    pub re: i32,
    pub im: i32,
}

/// The level of two bits in Gray code: 00, 01, 11 and 10 from the lowest level up.
pub open spec fn gray_level(b1: bool, b0: bool) -> i32 {
    if !b1 && !b0 {
        (-3) as i32
    } else if !b1 && b0 {
        (-1) as i32
    } else if b1 && b0 {
        1
    } else {
        3
    }
}

/// The level nearest to a coordinate.
pub open spec fn nearest_level(v: i32) -> i32 {
    if v < -2 {
        (-3) as i32
    } else if v < 0 {
        (-1) as i32
    } else if v < 2 {
        1
    } else {
        3
    }
}

/// The two bits of the level nearest to a coordinate.
pub open spec fn gray_bits(v: i32) -> (bool, bool) {
    let level = nearest_level(v);
    (level > 0, level == -1 || level == 1)
}

/// The bit at `i`, and a zero where there is none.
pub open spec fn bit_or_zero(input: Seq<u8>, i: int) -> bool {
    i < input.len() && input[i] != 0
}

/// The point that the bits from `at` on stand for.
pub open spec fn point_at(input: Seq<u8>, modulation: Modulation, at: int) -> Point {
    match modulation {
        Modulation::Qpsk => Point {
            re: if bit_or_zero(input, at) {
                (-1) as i32
            } else {
                1
            },
            im: if bit_or_zero(input, at + 1) {
                (-1) as i32
            } else {
                1
            },
        },
        Modulation::Qam16 => Point {
            re: gray_level(bit_or_zero(input, at), bit_or_zero(input, at + 1)),
            im: gray_level(bit_or_zero(input, at + 2), bit_or_zero(input, at + 3)),
        },
    }
}

/// The points that bits stand for.
pub open spec fn mapped(input: Seq<u8>, modulation: Modulation) -> Seq<Point> {
    Seq::new(
        bits::groups(input.len(), modulation.width()),
        |i: int| point_at(input, modulation, i * modulation.width()),
    )
}

pub open spec fn as_bit(b: bool) -> u8 {
    if b {
        1
    } else {
        0
    }
}

/// Bit `k` of the point decided for.
pub open spec fn decided_bit(p: Point, modulation: Modulation, k: int) -> u8 {
    match modulation {
        Modulation::Qpsk => as_bit(
            if k == 0 {
                p.re < 0
            } else {
                p.im < 0
            },
        ),
        Modulation::Qam16 => as_bit(
            if k == 0 {
                gray_bits(p.re).0
            } else if k == 1 {
                gray_bits(p.re).1
            } else if k == 2 {
                gray_bits(p.im).0
            } else {
                gray_bits(p.im).1
            },
        ),
    }
}

/// The bits of the points decided for.
pub open spec fn demapped(points: Seq<Point>, modulation: Modulation) -> Seq<u8> {
    Seq::new(
        points.len() * modulation.width(),
        |i: int|
            decided_bit(
                points[i / (modulation.width() as int)],
                modulation,
                i % (modulation.width() as int),
            ),
    )
}

/// All elements are zero or one.
pub open spec fn are_bits(input: Seq<u8>) -> bool {
    forall|i: int| 0 <= i < input.len() ==> #[trigger] input[i] <= 1
}

/// Bits survive the way to points and back.
pub proof fn law_demap_map(input: Seq<u8>, modulation: Modulation)
    requires
        are_bits(input),
        input.len() % modulation.width() == 0,
    ensures
        demapped(mapped(input, modulation), modulation) == input,
{
    let w = modulation.width() as int;
    let points = mapped(input, modulation);
    let back = demapped(points, modulation);
    assert(points.len() * w == input.len()) by {
        if modulation is Qpsk {
            assert(w == 2);
        } else {
            assert(w == 4);
        }
    }
    assert forall|i: int| 0 <= i < input.len() implies back[i] == input[i] by {
        let q = i / w;
        let k = i % w;
        assert(input[i] <= 1);
        if modulation is Qpsk {
            assert(q * 2 + k == i);
            assert(points[q] == point_at(input, modulation, q * 2));
        } else {
            assert(q * 4 + k == i);
            assert(points[q] == point_at(input, modulation, q * 4));
        }
    }
    assert(back =~= input);
}

/// Neighbouring levels differ in just one bit.
pub proof fn law_gray(level: i32)
    requires
        level == -3 || level == -1 || level == 1,
    ensures
        ({
            let (a1, a0) = gray_bits(level);
            let (b1, b0) = gray_bits((level + 2) as i32);
            (a1 != b1) != (a0 != b0)
        }),
{
}

/// A coordinate that is off by less than one level's half distance is decided rightly.
pub proof fn law_decision_region(b1: bool, b0: bool, v: i32)
    requires
        gray_level(b1, b0) - 1 <= v < gray_level(b1, b0) + 1,
    ensures
        gray_bits(v) == (b1, b0),
{
}

/// The level of two bits.
pub fn gray2_level(b1: u8, b0: u8) -> (r: i32)
    ensures
        r == gray_level(b1 != 0, b0 != 0),
{
    if b1 == 0 {
        if b0 == 0 {
            -3
        } else {
            -1
        }
    } else if b0 == 0 {
        3
    } else {
        1
    }
}

/// The bits of the level nearest to a coordinate.
pub fn level_to_gray2(v: i32) -> (r: (u8, u8))
    ensures
        r.0 == as_bit(gray_bits(v).0),
        r.1 == as_bit(gray_bits(v).1),
{
    if v < -2 {
        (0, 0)
    } else if v < 0 {
        (0, 1)
    } else if v < 2 {
        (1, 1)
    } else {
        (1, 0)
    }
}

fn bit_at(input: &[u8], i: usize) -> (r: u8)
    ensures
        (r != 0) == bit_or_zero(input@, i as int),
{
    if i < input.len() {
        input[i]
    } else {
        0
    }
}

/// The points that bits stand for. Callers fill the bits up to whole points; what is missing
/// counts as zero.
pub fn map(input: &[u8], modulation: Modulation) -> (r: Vec<Point>)
    requires
        input@.len() + 8 <= usize::MAX,
        modulation is Qam16 ==> are_bits(input@) && (input@.len() % 4 == 0 || input@.len() % 4
            == 3),
    ensures
        r@ == mapped(input@, modulation),
{
    let width: usize = modulation.bits_per_symbol();
    let count: usize = bits::group_count(input.len(), width);
    let ghost want = mapped(input@, modulation);
    let mut points: Vec<Point> = Vec::with_capacity(count);
    while points.len() < count
        invariant
            width == modulation.width(),
            width == 2 || width == 4,
            want == mapped(input@, modulation),
            want.len() == count,
            count == (input@.len() + width - 1) / (width as int),
            input@.len() + 8 <= usize::MAX,
            points@.len() <= count,
            points@ == want.take(points@.len() as int),
        decreases count - points@.len(),
    {
        let ghost q = points@.len() as int;
        proof {
            if width == 2 {
                assert(q * 2 < input@.len());
            } else {
                assert(q * 4 < input@.len());
            }
        }
        let at: usize = points.len() * width;
        let point: Point = match modulation {
            Modulation::Qpsk => Point {
                re: if bit_at(input, at) == 0 {
                    1
                } else {
                    -1
                },
                im: if bit_at(input, at + 1) == 0 {
                    1
                } else {
                    -1
                },
            },
            Modulation::Qam16 => Point {
                re: gray2_level(bit_at(input, at), bit_at(input, at + 1)),
                im: gray2_level(bit_at(input, at + 2), bit_at(input, at + 3)),
            },
        };
        points.push(point);
        assert(points@ =~= want.take(q + 1));
    }
    assert(want.take(count as int) =~= want);
    points
}

/// The bits of the points nearest to those received.
pub fn demap(points: &[Point], modulation: Modulation) -> (r: Vec<u8>)
    requires
        4 * points@.len() <= usize::MAX,
    ensures
        r@ == demapped(points@, modulation),
{
    let mut out: Vec<u8> = Vec::with_capacity(points.len() * modulation.bits_per_symbol());
    let ghost want = demapped(points@, modulation);
    let mut q: usize = 0;
    while q < points.len()
        invariant
            q <= points@.len(),
            want == demapped(points@, modulation),
            want.len() == points@.len() * modulation.width(),
            out@.len() == q * modulation.width(),
            forall|i: int| 0 <= i < out@.len() ==> out@[i] == want[i],
        decreases points@.len() - q,
    {
        let p: Point = points[q];
        match modulation {
            Modulation::Qpsk => {
                out.push(
                    if p.re >= 0 {
                        0
                    } else {
                        1
                    },
                );
                out.push(
                    if p.im >= 0 {
                        0
                    } else {
                        1
                    },
                );
                assert(2 * q as int / 2 == q && (2 * q + 1) / 2 == q);
            },
            Modulation::Qam16 => {
                let (i1, i0) = level_to_gray2(p.re);
                let (q1, q0) = level_to_gray2(p.im);
                out.push(i1);
                out.push(i0);
                out.push(q1);
                out.push(q0);
                assert(4 * q as int / 4 == q && (4 * q + 1) / 4 == q && (4 * q + 2) / 4 == q && (4
                    * q + 3) / 4 == q);
            },
        }
        q += 1;
    }
    assert(out@ =~= want);
    out
}

/// The bits of bytes, each as a zero or a one.
pub open spec fn unrolled(bytes: Seq<u8>) -> Seq<u8> {
    Seq::new(8 * bytes.len(), |i: int| as_bit(bits::bits_of(bytes)[i]))
}

/// The lowest bits of elements as bits.
pub open spec fn low_bits(input: Seq<u8>) -> Seq<bool> {
    Seq::new(input.len(), |i: int| input[i] & 1u8 == 1u8)
}

/// The bytes that bits spell, the last one filled up with zeros.
pub open spec fn rolled(input: Seq<u8>) -> Seq<u8> {
    Seq::new(
        bits::groups(input.len(), 8),
        |b: int| bits::byte_number(bits::window(low_bits(input), 8 * b, 8)),
    )
}

/// Bytes survive the way to bits and back, whatever is behind them.
pub proof fn law_roll_unroll(bytes: Seq<u8>, rest: Seq<u8>)
    ensures
        rolled(unrolled(bytes) + rest).take(bytes.len() as int) == bytes,
        rolled(unrolled(bytes)) == bytes,
        are_bits(unrolled(bytes)),
{
    lemma_roll_unroll(bytes, rest);
    lemma_roll_unroll(bytes, Seq::empty());
    assert(unrolled(bytes) + Seq::<u8>::empty() =~= unrolled(bytes));
    assert(rolled(unrolled(bytes)).take(bytes.len() as int) =~= rolled(unrolled(bytes)));
}

proof fn lemma_roll_unroll(bytes: Seq<u8>, rest: Seq<u8>)
    ensures
        rolled(unrolled(bytes) + rest).take(bytes.len() as int) == bytes,
{
    let all = unrolled(bytes) + rest;
    let stream = low_bits(all);
    assert(1u8 & 1u8 == 1u8 && 0u8 & 1u8 == 0u8) by (bit_vector);
    assert forall|b: int| 0 <= b < bytes.len() implies rolled(all)[b] == bytes[b] by {
        bits::lemma_byte_back(bytes, stream, b);
    }
    assert(rolled(all).take(bytes.len() as int) =~= bytes);
}

/// The bits of bytes, the highest of each byte first.
pub fn bytes_to_bits(bytes: &[u8]) -> (r: Vec<u8>)
    requires
        8 * bytes@.len() <= usize::MAX,
    ensures
        r@ == unrolled(bytes@),
{
    let mut out: Vec<u8> = Vec::with_capacity(bytes.len() * 8);
    let mut i: usize = 0;
    while i < bytes.len()
        invariant
            i <= bytes@.len(),
            out@ == unrolled(bytes@).take(8 * i),
        decreases bytes@.len() - i,
    {
        let b: u8 = bytes[i];
        let mut k: u8 = 0;
        while k < 8
            invariant
                k <= 8,
                i < bytes@.len(),
                b == bytes@[i as int],
                out@ == unrolled(bytes@).take(8 * i + k),
            decreases 8 - k,
        {
            let bit: u8 = if bits::get_byte_bit(b, 7 - k) {
                1
            } else {
                0
            };
            out.push(bit);
            proof {
                let j = 8 * i + k;
                assert(j / 8 == i && j % 8 == k);
                assert(out@ =~= unrolled(bytes@).take(j + 1));
            }
            k += 1;
        }
        i += 1;
    }
    assert(unrolled(bytes@).take(8 * i) =~= unrolled(bytes@));
    out
}

/// The bytes that bits spell. Of each element only the lowest bit counts.
pub fn bits_to_bytes(input: &[u8]) -> (r: Vec<u8>)
    requires
        input@.len() + 8 <= usize::MAX,
    ensures
        r@ == rolled(input@),
{
    let count: usize = bits::group_count(input.len(), 8);
    let ghost want = rolled(input@);
    let ghost stream = low_bits(input@);
    let mut out: Vec<u8> = Vec::with_capacity(count);
    while out.len() < count
        invariant
            want == rolled(input@),
            want.len() == count,
            count == (input@.len() + 7) / 8,
            stream == low_bits(input@),
            input@.len() + 8 <= usize::MAX,
            out@.len() <= count,
            out@ == want.take(out@.len() as int),
        decreases count - out@.len(),
    {
        let ghost b = out@.len() as int;
        let at: usize = out.len() * 8;
        let ghost win = bits::window(stream, 8 * b, 8);
        let mut v: u16 = 0;
        let mut k: usize = 0;
        while k < 8
            invariant
                k <= 8,
                at + 8 <= usize::MAX,
                stream == low_bits(input@),
                win == bits::window(stream, at as int, 8),
                v == bits::number(win.take(k as int)),
            decreases 8 - k,
        {
            let i: usize = at + k;
            let bit: bool = if i < input.len() {
                input[i] & 1 == 1
            } else {
                false
            };
            assert(bit == win[k as int]);
            assert(win.take(k + 1).drop_last() =~= win.take(k as int));
            v = bits::append_bit(v, bit);
            k += 1;
        }
        assert(win.take(k as int) =~= win);
        out.push(v as u8);
        assert(out@ =~= want.take(b + 1));
    }
    assert(want.take(count as int) =~= want);
    out
}

/// The upper of two bits is the sign of their level, and the lower says that it is an inner one.
pub proof fn law_levels(b1: bool, b0: bool)
    ensures
        b1 <==> gray_level(b1, b0) > 0,
        gray_level(b1, b0) == (if b0 { 1int } else { 3 }) * (if b1 { 1int } else { -1 }),
{
}

/// No level is nearer to a received coordinate than the one decided for, however far out the
/// coordinate lies. It lies between `v` and `v + 1`.
pub proof fn law_nearest_level(v: i32, b1: bool, b0: bool)
    ensures
        ({
            let (d1, d0) = gray_bits(v);
            let here = 2 * v + 1;
            let decided = here - 2 * gray_level(d1, d0);
            let other = here - 2 * gray_level(b1, b0);
            -(if other >= 0 { other } else { -other }) <= decided <= (if other >= 0 {
                other
            } else {
                -other
            })
        }),
{
}

/// Every point is decided for by itself. Of four points the first bit is the sign of the real part
/// and the second that of the imaginary part, however far from zero they lie.
pub proof fn law_qpsk_decides_by_sign(points: Seq<Point>, i: int)
    requires
        0 <= i < points.len(),
    ensures
        demapped(points, Modulation::Qpsk).len() == 2 * points.len(),
        demapped(points, Modulation::Qpsk)[2 * i] == (if points[i].re < 0 { 1u8 } else { 0 }),
        demapped(points, Modulation::Qpsk)[2 * i + 1] == (if points[i].im < 0 { 1u8 } else { 0 }),
{
}

/// Of sixteen points the first two bits are those of the level nearest to the real part, and the
/// others those of the level nearest to the imaginary part.
pub proof fn law_qam16_decides_by_levels(points: Seq<Point>, i: int)
    requires
        0 <= i < points.len(),
    ensures
        ({
            let out = demapped(points, Modulation::Qam16);
            let p = points[i];
            &&& out.len() == 4 * points.len()
            &&& out[4 * i] <= 1 && out[4 * i + 1] <= 1 && out[4 * i + 2] <= 1 && out[4 * i + 3] <= 1
            &&& gray_bits(p.re) == (out[4 * i] == 1, out[4 * i + 1] == 1)
            &&& gray_bits(p.im) == (out[4 * i + 2] == 1, out[4 * i + 3] == 1)
        }),
{
}

/// Noise that does not carry a coordinate over zero flips no bit of four points: where a received
/// point lies on the same sides as the one that was sent, the bits sent come out.
pub proof fn law_qpsk_survives_noise(input: Seq<u8>, received: Seq<Point>)
    requires
        are_bits(input),
        input.len() % 2 == 0,
        received.len() == mapped(input, Modulation::Qpsk).len(),
        forall|i: int|
            0 <= i < received.len() ==> {
                let sent = mapped(input, Modulation::Qpsk)[i];
                &&& ((#[trigger] received[i]).re < 0 <==> sent.re < 0)
                &&& (received[i].im < 0 <==> sent.im < 0)
            },
    ensures
        demapped(received, Modulation::Qpsk) == input,
{
    let sent = mapped(input, Modulation::Qpsk);
    let out = demapped(received, Modulation::Qpsk);
    assert(Modulation::Qpsk.width() == 2);
    assert(sent.len() == (input.len() + 1) / 2);
    assert(input.len() == 2 * sent.len());
    assert forall|k: int| 0 <= k < input.len() implies out[k] == input[k] by {
        let i = k / 2;
        assert(received[i].re < 0 <==> sent[i].re < 0);
        assert(sent[i] == point_at(input, Modulation::Qpsk, i * 2));
    }
    assert(out =~= input);
}

/// Where bits are sent: of four points, a set bit is the level -1 and a clear one the level 1, the
/// real part first; of sixteen, two bits are a level, the real part first. Missing bits are clear.
pub proof fn law_points_sent(input: Seq<u8>, i: int)
    requires
        0 <= i,
    ensures
        2 * i < input.len() ==> {
            let p = mapped(input, Modulation::Qpsk)[i];
            &&& p.re == (if input[2 * i] != 0 { -1int } else { 1 })
            &&& p.im == (if 2 * i + 1 < input.len() && input[2 * i + 1] != 0 { -1int } else { 1 })
        },
        4 * i + 3 < input.len() ==> {
            let p = mapped(input, Modulation::Qam16)[i];
            &&& p.re == gray_level(input[4 * i] != 0, input[4 * i + 1] != 0)
            &&& p.im == gray_level(input[4 * i + 2] != 0, input[4 * i + 3] != 0)
        },
        mapped(input, Modulation::Qpsk).len() == (input.len() + 1) / 2,
        mapped(input, Modulation::Qam16).len() == (input.len() + 3) / 4,
{
    assert(Modulation::Qpsk.width() == 2);
    assert(Modulation::Qam16.width() == 4);
    assert(i * Modulation::Qpsk.width() == 2 * i);
    assert(i * Modulation::Qam16.width() == 4 * i);
}

/// Bit `j` of byte `i`, counted from the highest, is element `8 * i + j`.
pub proof fn law_highest_bit_first(bytes: Seq<u8>, i: int, j: int)
    requires
        0 <= i < bytes.len(),
        0 <= j < 8,
    ensures
        unrolled(bytes).len() == 8 * bytes.len(),
        unrolled(bytes)[8 * i + j] == (if bits::byte_bit(bytes[i], 7 - j) { 1u8 } else { 0 }),
{
}

/// The lowest bits of eight elements are the bits of a byte, the first the highest, with zeros
/// where elements are missing.
pub proof fn law_elements_spell_bytes(input: Seq<u8>, b: int, j: int)
    requires
        0 <= b < rolled(input).len(),
        0 <= j < 8,
    ensures
        rolled(input).len() == (input.len() + 7) / 8,
        bits::byte_bit(rolled(input)[b], 7 - j) == (8 * b + j < input.len() && input[8 * b + j] % 2
            == 1),
{
    bits::lemma_byte_number(bits::window(low_bits(input), 8 * b, 8), 7 - j);
    if 8 * b + j < input.len() {
        let x = input[8 * b + j];
        assert(x & 1u8 == x % 2) by (bit_vector);
    }
}

} // verus!
