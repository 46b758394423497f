//! The layout of orthogonal subcarriers, and how a receiver reads a frame.
//!
//! A frame is a preamble of two equal halves, a symbol in which all subcarriers are known, a
//! symbol that holds the length many times over, and the data. Every eighth subcarrier is a pilot.

use vstd::prelude::*;
use crate::bandplan::SubBand;
use crate::framing::{be16, from_be16, PhyMode, OVERHEAD};
use crate::modem::bits;
use crate::modem::qam;
use crate::modem::qam::{Modulation, Point};
use crate::modem::reader::{length_field, plausible, MAX_FRAME};

verus! {

/// The length of the transform.
pub const N: usize = 1024;

/// The length of the cyclic prefix.
pub const CP: usize = 128;

/// A symbol with its prefix.
pub const SYMBOL: usize = N + CP;

/// The distance of pilots among the subcarriers in use.
pub const PILOT_STRIDE: usize = 8;

/// The highest subcarrier in use: two spacings inside the edge of the band.
pub open spec fn top_bin(bandwidth_hz: int, sample_rate: int) -> int {
    let k = bandwidth_hz * 512 / sample_rate - 2;
    if k >= 0 {
        k
    } else {
        0
    }
}

/// The subcarriers in use: from the second on upwards, and their mirror images.
pub open spec fn active_bins(top: int) -> Seq<usize> {
    if top < 2 {
        Seq::empty()
    } else {
        Seq::new(
            2 * (top - 1) as nat,
            |i: int|
                if i < top - 1 {
                    (i + 2) as usize
                } else {
                    (1024 - (i - (top - 1) + 2)) as usize
                },
        )
    }
}

/// Every eighth of the subcarriers in use.
pub open spec fn pilots_of(active: Seq<usize>) -> Seq<usize> {
    Seq::new(bits::groups(active.len(), 8), |i: int| active[8 * i])
}

/// The subcarriers in use that are no pilots, in order.
pub open spec fn data_of(active: Seq<usize>) -> Seq<usize> {
    Seq::new(
        (active.len() - bits::groups(active.len(), 8)) as nat,
        |i: int| active[i + i / 7 + 1],
    )
}

/// No subcarrier is used twice.
pub proof fn law_bins_differ(top: int, i: int, j: int)
    requires
        top <= 511,
        0 <= i < j < active_bins(top).len(),
    ensures
        active_bins(top)[i] != active_bins(top)[j],
        0 < active_bins(top)[i] < 1024,
{
}

/// Pilots and data share the subcarriers in use between them.
pub proof fn law_pilots_and_data(active: Seq<usize>, i: int)
    requires
        0 <= i < active.len(),
    ensures
        i % 8 == 0 ==> i / 8 < pilots_of(active).len() && pilots_of(active)[i / 8] == active[i],
        i % 8 != 0 ==> i - i / 8 - 1 < data_of(active).len() && data_of(active)[i - i / 8 - 1]
            == active[i],
        pilots_of(active).len() + data_of(active).len() == active.len(),
{
    if i % 8 != 0 {
        let j = i - i / 8 - 1;
        assert(j / 7 == i / 8);
    }
}

/// The hash that known subcarriers take their signs from.
pub open spec fn mix(seed: u64) -> u64 {
    let h = (0xcbf29ce484222325u64 ^ seed).wrapping_mul(0x100000001b3u64);
    h ^ (h >> 29u64)
}

/// The point of a known subcarrier, the same at both ends.
pub open spec fn known_point(seed: u64) -> Point {
    Point {
        re: if mix(seed) & 1u64 == 0 {
            1
        } else {
            (-1) as i32
        },
        im: if mix(seed) & 2u64 == 0 {
            1
        } else {
            (-1) as i32
        },
    }
}

pub fn pn_qpsk(seed: u64) -> (r: Point)
    ensures
        r == known_point(seed),
{
    let mut h: u64 = 0xcbf29ce484222325u64 ^ seed;
    h = h.wrapping_mul(0x100000001b3);
    h = h ^ (h >> 29u64);
    Point {
        re: if h & 1 == 0 {
            1
        } else {
            -1
        },
        im: if h & 2 == 0 {
            1
        } else {
            -1
        },
    }
}

/// The point of a subcarrier in the symbol by which the channel is estimated.
pub fn channel_point(bin: usize) -> (r: Point)
    ensures
        r == known_point(bin as u64 ^ 0x51),
{
    pn_qpsk(bin as u64 ^ 0x51)
}

/// The point of a pilot.
pub fn pilot_point(bin: usize) -> (r: Point)
    ensures
        r == known_point(bin as u64 ^ 0xA3),
{
    pn_qpsk(bin as u64 ^ 0xA3)
}

/// The point of a subcarrier in the preamble, which uses only the even ones: that is what makes
/// its halves equal.
pub fn preamble_point(bin: usize) -> (r: Option<Point>)
    ensures
        r == if bin % 2 == 0 {
            Some(known_point(bin as u64 ^ 0x7E))
        } else {
            None
        },
{
    if bin % 2 == 0 {
        Some(pn_qpsk(bin as u64 ^ 0x7E))
    } else {
        None
    }
}

/// The bits of the length, over and over.
pub open spec fn tiled(len: u16, count: nat) -> Seq<u8> {
    Seq::new(count, |i: int| qam::unrolled(be16(len))[i % 16])
}

/// How many copies of bit `pos` of the length are ones, less those that are not, among the first
/// `n` bits.
pub open spec fn margin(raw: Seq<u8>, pos: int, n: nat) -> int
    decreases n,
{
    if n == 0 {
        0
    } else {
        margin(raw, pos, (n - 1) as nat) + (if (n - 1) % 16 == pos {
            if raw[n - 1] == 1 {
                1int
            } else {
                -1int
            }
        } else {
            0int
        })
    }
}

/// The bits of the length that the copies agree on.
pub open spec fn voted_bits(raw: Seq<u8>) -> Seq<u8> {
    Seq::new(16, |pos: int| qam::as_bit(margin(raw, pos, raw.len()) > 0))
}

/// The length that the copies agree on.
pub open spec fn voted_length(raw: Seq<u8>) -> nat {
    let b = qam::rolled(voted_bits(raw));
    from_be16(b[0], b[1]) as nat
}

/// Where most copies of every bit of the length are right, the length is understood.
pub proof fn law_length_vote(len: u16, raw: Seq<u8>)
    requires
        forall|pos: int|
            0 <= pos < 16 ==> (#[trigger] qam::unrolled(be16(len))[pos] == 1 <==> margin(
                raw,
                pos,
                raw.len(),
            ) > 0),
    ensures
        voted_length(raw) == len,
{
    let want = qam::unrolled(be16(len));
    assert(voted_bits(raw) =~= want) by {
        assert forall|pos: int| 0 <= pos < 16 implies voted_bits(raw)[pos] == want[pos] by {
            assert(want[pos] == 1 <==> margin(raw, pos, raw.len()) > 0);
        }
    }
    qam::law_roll_unroll(be16(len), Seq::empty());
}

proof fn lemma_margin_tiled(len: u16, count: nat, pos: int, n: nat)
    requires
        0 <= pos < 16,
        n <= count,
    ensures
        ({
            let m = margin(tiled(len, count), pos, n);
            let copies = (n + 15 - pos) / 16;
            m == if qam::unrolled(be16(len))[pos] == 1 {
                copies
            } else {
                -copies
            }
        }),
    decreases n,
{
    if n > 0 {
        lemma_margin_tiled(len, count, pos, (n - 1) as nat);
    }
}

/// A length that is tiled over sixteen bits or more is understood.
pub proof fn law_tiled_length(len: u16, count: nat)
    requires
        count >= 16,
    ensures
        voted_length(tiled(len, count)) == len,
{
    let raw = tiled(len, count);
    assert forall|pos: int| 0 <= pos < 16 implies (#[trigger] qam::unrolled(be16(len))[pos] == 1
        <==> margin(raw, pos, raw.len()) > 0) by {
        lemma_margin_tiled(len, count, pos, count);
    }
    law_length_vote(len, raw);
}

/// The bits of a frame, filled up with zeros to whole symbols of `per` bits.
pub open spec fn filled(bytes: Seq<u8>, per: nat) -> Seq<u8> {
    let b = qam::unrolled(bytes);
    b + Seq::new((bits::groups(b.len(), per) * per - b.len()) as nat, |i: int| 0u8)
}

/// Which subcarriers carry what.
pub struct OfdmLayout {
    modulation: Modulation,
    active: Vec<usize>,
    pilot_bins: Vec<usize>,
    data_bins: Vec<usize>,
}

impl OfdmLayout {
    pub closed spec fn keying(&self) -> Modulation {
        self.modulation
    }

    pub closed spec fn in_use(&self) -> Seq<usize> {
        self.active@
    }

    pub closed spec fn wf(&self) -> bool {
        &&& self.active@.len() <= 2048
        &&& self.pilot_bins@ == pilots_of(self.active@)
        &&& self.data_bins@ == data_of(self.active@)
    }

    /// The bits that one symbol carries.
    pub open spec fn per_symbol(&self) -> nat {
        data_of(self.in_use()).len() * self.keying().width()
    }

    pub fn new(band: SubBand, sample_rate: u32, modulation: Modulation) -> (r: Self)
        requires
            band.wf(),
            sample_rate > 0,
            top_bin(band.high - band.low, sample_rate as int) < 1024,
        ensures
            r.wf(),
            r.keying() == modulation,
            r.in_use() == active_bins(top_bin(band.high - band.low, sample_rate as int)),
    {
        let wide: u64 = (band.high - band.low) as u64 * 512 / sample_rate as u64;
        let k_max: usize = if wide >= 2 {
            (wide - 2) as usize
        } else {
            0
        };
        let ghost want = active_bins(k_max as int);
        let mut active: Vec<usize> = Vec::new();
        let mut k: usize = 2;
        while k <= k_max
            invariant
                2 <= k,
                k <= k_max + 1 || k == 2,
                k_max < 1024,
                want == active_bins(k_max as int),
                active@.len() == k - 2,
                forall|i: int| 0 <= i < active@.len() ==> active@[i] == want[i],
            decreases k_max + 1 - k,
        {
            active.push(k);
            k += 1;
        }
        let mut k: usize = 2;
        while k <= k_max
            invariant
                2 <= k,
                k <= k_max + 1 || k == 2,
                k_max < 1024,
                want == active_bins(k_max as int),
                k_max < 2 ==> active@.len() == 0,
                k_max >= 2 ==> active@.len() == (k_max - 1) + (k - 2),
                forall|i: int| 0 <= i < active@.len() ==> active@[i] == want[i],
            decreases k_max + 1 - k,
        {
            active.push(N - k);
            k += 1;
        }
        assert(active@ =~= want);
        let mut pilot_bins: Vec<usize> = Vec::new();
        let mut data_bins: Vec<usize> = Vec::new();
        let mut i: usize = 0;
        while i < active.len()
            invariant
                i <= active@.len() <= 2048,
                pilot_bins@.len() == (i + 7) / 8,
                data_bins@.len() == i - (i + 7) / 8,
                forall|j: int| 0 <= j < pilot_bins@.len() ==> pilot_bins@[j] == active@[8 * j],
                forall|j: int|
                    0 <= j < data_bins@.len() ==> data_bins@[j] == active@[j + j / 7 + 1],
            decreases active@.len() - i,
        {
            if i % PILOT_STRIDE == 0 {
                pilot_bins.push(active[i]);
            } else {
                proof {
                    let j = i - (i + 7) / 8;
                    assert(j + j / 7 + 1 == i);
                }
                data_bins.push(active[i]);
            }
            i += 1;
        }
        assert(pilot_bins@ =~= pilots_of(active@));
        assert(data_bins@ =~= data_of(active@));
        OfdmLayout { modulation, active, pilot_bins, data_bins }
    }

    pub fn active_subcarriers(&self) -> (r: &Vec<usize>)
        ensures
            r@ == self.in_use(),
    {
        &self.active
    }

    pub fn pilot_subcarriers(&self) -> (r: &Vec<usize>)
        requires
            self.wf(),
        ensures
            r@ == pilots_of(self.in_use()),
    {
        &self.pilot_bins
    }

    pub fn data_carriers(&self) -> (r: &Vec<usize>)
        requires
            self.wf(),
        ensures
            r@ == data_of(self.in_use()),
    {
        &self.data_bins
    }

    pub fn data_subcarriers(&self) -> (r: usize)
        requires
            self.wf(),
        ensures
            r == data_of(self.in_use()).len(),
    {
        self.data_bins.len()
    }

    pub fn modulation(&self) -> (r: Modulation)
        ensures
            r == self.keying(),
    {
        self.modulation
    }

    pub fn mode(&self) -> (r: PhyMode)
        ensures
            r == match self.keying() {
                Modulation::Qpsk => PhyMode::OfdmQpsk,
                Modulation::Qam16 => PhyMode::Ofdm16Qam,
            },
    {
        match self.modulation {
            Modulation::Qpsk => PhyMode::OfdmQpsk,
            Modulation::Qam16 => PhyMode::Ofdm16Qam,
        }
    }

    pub fn bits_per_symbol(&self) -> (r: usize)
        requires
            self.wf(),
        ensures
            r == self.per_symbol(),
            r <= 8192,
    {
        self.data_bins.len() * self.modulation.bits_per_symbol()
    }

    /// The subcarriers in use exist, and none is used twice.
    pub open spec fn bins_ok(&self) -> bool {
        &&& self.in_use().no_duplicates()
        &&& forall|i: int| 0 <= i < self.in_use().len() ==> #[trigger] self.in_use()[i] < 1024
    }

    /// The spectrum of a symbol: data and pilots on their subcarriers, and nothing elsewhere.
    pub fn assemble<S: Copy>(&self, data: &[S], pilots: &[S], nothing: S) -> (r: Vec<S>)
        requires
            self.wf(),
            self.bins_ok(),
            data@.len() == data_of(self.in_use()).len(),
            pilots@.len() == pilots_of(self.in_use()).len(),
        ensures
            r@.len() == 1024,
            forall|i: int|
                0 <= i < data@.len() ==> r@[#[trigger] data_of(self.in_use())[i] as int]
                    == data@[i],
            forall|i: int|
                0 <= i < pilots@.len() ==> r@[#[trigger] pilots_of(self.in_use())[i] as int]
                    == pilots@[i],
            forall|b: usize|
                b < 1024 && !#[trigger] self.in_use().contains(b) ==> r@[b as int] == nothing,
    {
        let ghost active = self.in_use();
        let ghost db = data_of(active);
        let ghost pb = pilots_of(active);
        let mut freq: Vec<S> = Vec::new();
        while freq.len() < N
            invariant
                freq@.len() <= 1024,
                forall|b: int| 0 <= b < freq@.len() ==> freq@[b] == nothing,
            decreases 1024 - freq@.len(),
        {
            freq.push(nothing);
        }
        proof {
            lemma_shares(active);
        }
        let mut i: usize = 0;
        while i < data.len()
            invariant
                i <= data@.len(),
                self.wf(),
                self.bins_ok(),
                active == self.in_use(),
                db == data_of(active),
                shares(active),
                data@.len() == db.len(),
                freq@.len() == 1024,
                forall|k: int| 0 <= k < i ==> freq@[#[trigger] db[k] as int] == data@[k],
                forall|b: usize|
                    b < 1024 && !#[trigger] active.contains(b) ==> freq@[b as int] == nothing,
            decreases data@.len() - i,
        {
            let bin: usize = self.data_bins[i];
            let ghost before = freq@;
            assert(bin == db[i as int]);
            assert(active.contains(bin));
            freq.set(bin, data[i]);
            assert forall|k: int| 0 <= k < i + 1 implies freq@[#[trigger] db[k] as int] == data@[k] by {
                if k < i {
                    assert(db[k] != db[i as int]);
                }
            }
            i += 1;
        }
        let mut p: usize = 0;
        while p < pilots.len()
            invariant
                p <= pilots@.len(),
                self.wf(),
                self.bins_ok(),
                active == self.in_use(),
                db == data_of(active),
                pb == pilots_of(active),
                shares(active),
                data@.len() == db.len(),
                pilots@.len() == pb.len(),
                freq@.len() == 1024,
                forall|k: int| 0 <= k < data@.len() ==> freq@[#[trigger] db[k] as int] == data@[k],
                forall|k: int| 0 <= k < p ==> freq@[#[trigger] pb[k] as int] == pilots@[k],
                forall|b: usize|
                    b < 1024 && !#[trigger] active.contains(b) ==> freq@[b as int] == nothing,
            decreases pilots@.len() - p,
        {
            let bin: usize = self.pilot_bins[p];
            assert(bin == pb[p as int]);
            assert(active.contains(bin));
            freq.set(bin, pilots[p]);
            assert forall|k: int| 0 <= k < data@.len() implies freq@[#[trigger] db[k] as int]
                == data@[k] by {
                assert(db[k] != pb[p as int]);
            }
            assert forall|k: int| 0 <= k < p + 1 implies freq@[#[trigger] pb[k] as int]
                == pilots@[k] by {
                if k < p {
                    assert(pb[k] != pb[p as int]);
                }
            }
            p += 1;
        }
        freq
    }

    /// The bits of the symbol that holds the length of a frame.
    pub fn length_bits(&self, frame_len: usize) -> (r: Vec<u8>)
        requires
            self.wf(),
        ensures
            r@ == tiled(length_field(frame_len as nat), 2 * data_of(self.in_use()).len()),
    {
        let len: u16 = (frame_len % 0x10000) as u16;
        let len_bytes: [u8; 2] = [(len / 256) as u8, (len % 256) as u8];
        assert(len_bytes@ =~= be16(len));
        let len_bits: Vec<u8> = qam::bytes_to_bits(&len_bytes);
        let need: usize = self.data_bins.len() * 2;
        let mut out: Vec<u8> = Vec::with_capacity(need);
        let mut i: usize = 0;
        while i < need
            invariant
                i <= need,
                len_bits@ == qam::unrolled(be16(len)),
                len_bits@.len() == 16,
                out@ == tiled(len, need as nat).take(i as int),
            decreases need - i,
        {
            out.push(len_bits[i % 16]);
            i += 1;
            assert(out@ =~= tiled(len, need as nat).take(i as int));
        }
        assert(out@ =~= tiled(len, need as nat));
        out
    }

    /// The bits of the data symbols of a frame.
    pub fn data_bits(&self, frame_bytes: &[u8]) -> (r: Vec<u8>)
        requires
            self.wf(),
            self.per_symbol() > 0,
            8 * frame_bytes@.len() + 8192 <= usize::MAX,
        ensures
            r@ == filled(frame_bytes@, self.per_symbol()),
    {
        let mut out: Vec<u8> = qam::bytes_to_bits(frame_bytes);
        let per: usize = self.bits_per_symbol();
        let ghost b = out@;
        let n: usize = out.len();
        let pad: usize = (per - n % per) % per;
        proof {
            lemma_fill(n as int, per as int);
        }
        let mut k: usize = 0;
        while k < pad
            invariant
                k <= pad,
                out@ == b + Seq::new(k as nat, |i: int| 0u8),
            decreases pad - k,
        {
            out.push(0);
            k += 1;
            assert(out@ =~= b + Seq::new(k as nat, |i: int| 0u8));
        }
        out
    }

    /// The samples that a frame with a payload of the given length takes.
    pub fn frame_samples(&self, payload_len: usize) -> (r: usize)
        requires
            self.wf(),
            self.per_symbol() > 0,
            8 * (OVERHEAD + payload_len) + 8192 <= usize::MAX,
            (3 + bits::groups(8 * (OVERHEAD + payload_len) as nat, self.per_symbol())) * 1152
                <= usize::MAX,
        ensures
            r == (3 + bits::groups(8 * (OVERHEAD + payload_len) as nat, self.per_symbol())) * 1152,
    {
        let frame_len: usize = OVERHEAD + payload_len;
        let n_data: usize = bits::group_count(frame_len * 8, self.bits_per_symbol());
        (3 + n_data) * SYMBOL
    }
}

/// Pilots and data are on subcarriers in use, and no two of them on the same.
spec fn shares(active: Seq<usize>) -> bool {
    let db = data_of(active);
    let pb = pilots_of(active);
    &&& forall|i: int| 0 <= i < db.len() ==> active.contains(#[trigger] db[i]) && db[i] < 1024
    &&& forall|i: int| 0 <= i < pb.len() ==> active.contains(#[trigger] pb[i]) && pb[i] < 1024
    &&& forall|i: int, j: int|
        0 <= i < db.len() && 0 <= j < db.len() && i != j ==> #[trigger] db[i] != #[trigger] db[j]
    &&& forall|i: int, j: int|
        0 <= i < pb.len() && 0 <= j < pb.len() && i != j ==> #[trigger] pb[i] != #[trigger] pb[j]
    &&& forall|i: int, j: int|
        0 <= i < db.len() && 0 <= j < pb.len() ==> #[trigger] db[i] != #[trigger] pb[j]
}

proof fn lemma_shares(active: Seq<usize>)
    requires
        active.no_duplicates(),
        forall|i: int| 0 <= i < active.len() ==> #[trigger] active[i] < 1024,
    ensures
        shares(active),
{
    let db = data_of(active);
    let pb = pilots_of(active);
    assert forall|i: int| 0 <= i < db.len() implies active.contains(#[trigger] db[i]) && db[i]
        < 1024 by {
        let k = i + i / 7 + 1;
        assert(k < active.len());
        assert(db[i] == active[k]);
    }
    assert forall|i: int| 0 <= i < pb.len() implies active.contains(#[trigger] pb[i]) && pb[i]
        < 1024 by {
        assert(8 * i < active.len());
        assert(pb[i] == active[8 * i]);
    }
    assert forall|i: int, j: int|
        0 <= i < db.len() && 0 <= j < db.len() && i != j implies #[trigger] db[i]
        != #[trigger] db[j] by {
        assert(db[i] == active[i + i / 7 + 1]);
        assert(db[j] == active[j + j / 7 + 1]);
        assert(i + i / 7 + 1 != j + j / 7 + 1);
    }
    assert forall|i: int, j: int|
        0 <= i < pb.len() && 0 <= j < pb.len() && i != j implies #[trigger] pb[i]
        != #[trigger] pb[j] by {
        assert(pb[i] == active[8 * i]);
        assert(pb[j] == active[8 * j]);
    }
    assert forall|i: int, j: int| 0 <= i < db.len() && 0 <= j < pb.len() implies #[trigger] db[i]
        != #[trigger] pb[j] by {
        assert(db[i] == active[i + i / 7 + 1]);
        assert(pb[j] == active[8 * j]);
        assert((i + i / 7 + 1) % 8 != 0);
    }
}

/// In a band no wider than the sample rate, the subcarriers in use exist and none is used twice.
pub proof fn law_layout_is_sound(top: int)
    requires
        top <= 511,
    ensures
        active_bins(top).no_duplicates(),
        forall|i: int| 0 <= i < active_bins(top).len() ==> #[trigger] active_bins(top)[i] < 1024,
{
    let a = active_bins(top);
    assert forall|i: int, j: int| 0 <= i < a.len() && 0 <= j < a.len() && i != j implies a[i]
        != a[j] by {
        if i < j {
            law_bins_differ(top, i, j);
        } else {
            law_bins_differ(top, j, i);
        }
    }
    assert forall|i: int| 0 <= i < a.len() implies #[trigger] a[i] < 1024 by {
        if i + 1 < a.len() {
            law_bins_differ(top, i, i + 1);
        }
    }
}

proof fn lemma_fill(n: int, per: int)
    requires
        n >= 0,
        per > 0,
    ensures
        (per - n % per) % per == bits::groups(n as nat, per as nat) * per - n,
{
    let g = (n + per - 1) / per;
    let m = n % per;
    let q = n / per;
    vstd::arithmetic::div_mod::lemma_fundamental_div_mod(n, per);
    if m == 0 {
        assert(n + per - 1 == q * per + (per - 1)) by (nonlinear_arith)
            requires
                n == per * q + m,
                m == 0,
        ;
        vstd::arithmetic::div_mod::lemma_fundamental_div_mod_converse(n + per - 1, per, q, per - 1);
        vstd::arithmetic::div_mod::lemma_mod_self_0(per);
        assert(g * per == n) by (nonlinear_arith)
            requires
                g == q,
                n == per * q,
        ;
    } else {
        assert(n + per - 1 == (q + 1) * per + (m - 1)) by (nonlinear_arith)
            requires
                n == per * q + m,
        ;
        vstd::arithmetic::div_mod::lemma_fundamental_div_mod_converse(
            n + per - 1,
            per,
            q + 1,
            m - 1,
        );
        vstd::arithmetic::div_mod::lemma_small_mod((per - m) as nat, per as nat);
        assert(g * per - n == per - m) by (nonlinear_arith)
            requires
                g == q + 1,
                n == per * q + m,
        ;
    }
}

/// How far a receiver has come.
pub enum OfdmStage {
    /// It wants the symbol by which the channel is estimated.
    Channel,
    /// It wants the symbol that holds the length.
    Length,
    /// It wants `left` more symbols of data, to the bits it has got.
    Data { len: nat, left: nat, got: Seq<u8> },
    /// It is done.
    Over,
}

/// A receiver: where the preamble was found, where the next symbol starts, how many samples were
/// recorded, how many bits a symbol carries, and how far it has come.
pub struct OfdmSearch {
    pub peak: int,
    pub cursor: int,
    pub recorded: int,
    pub per: nat,
    pub stage: OfdmStage,
}

/// What a receiver asks for next.
pub enum OfdmWish {
    /// The spectrum of the samples from the given one on.
    Spectrum(int),
    /// Nothing: the bytes of the frame, its first sample and the sample behind it.
    Frame(Seq<u8>, int, int),
    /// Nothing: there is no frame.
    Lost,
}

/// Asks for the symbol at the cursor, or gives up where the recording ends.
pub open spec fn ask(s: OfdmSearch, cursor: int, stage: OfdmStage) -> (OfdmSearch, OfdmWish) {
    if cursor + 128 + 1024 <= s.recorded {
        (
            OfdmSearch { peak: s.peak, cursor, recorded: s.recorded, per: s.per, stage },
            OfdmWish::Spectrum(cursor + 128),
        )
    } else {
        lose(s)
    }
}

pub open spec fn lose(s: OfdmSearch) -> (OfdmSearch, OfdmWish) {
    (
        OfdmSearch {
            peak: s.peak,
            cursor: s.cursor,
            recorded: s.recorded,
            per: s.per,
            stage: OfdmStage::Over,
        },
        OfdmWish::Lost,
    )
}

/// The beginning: the channel is estimated from the symbol behind the preamble.
pub open spec fn begin(peak: int, recorded: int, per: nat) -> (OfdmSearch, OfdmWish) {
    ask(
        OfdmSearch { peak, cursor: peak + 1024, recorded, per, stage: OfdmStage::Over },
        peak + 1024,
        OfdmStage::Channel,
    )
}

/// After the channel comes the length.
pub open spec fn after_channel(s: OfdmSearch) -> (OfdmSearch, OfdmWish) {
    ask(s, s.cursor + 1152, OfdmStage::Length)
}

/// A plausible length is followed by the data.
pub open spec fn after_length(s: OfdmSearch, raw: Seq<u8>) -> (OfdmSearch, OfdmWish) {
    let len = voted_length(raw);
    if plausible(len) {
        ask(
            s,
            s.cursor + 1152,
            OfdmStage::Data { len, left: bits::groups(8 * len, s.per), got: Seq::empty() },
        )
    } else {
        lose(s)
    }
}

/// The last symbol of data completes the frame.
pub open spec fn after_data(s: OfdmSearch, more: Seq<u8>) -> (OfdmSearch, OfdmWish) {
    match s.stage {
        OfdmStage::Data { len, left, got } => {
            let all = got + more;
            if left > 1 {
                ask(
                    s,
                    s.cursor + 1152,
                    OfdmStage::Data { len, left: (left - 1) as nat, got: all },
                )
            } else {
                (
                    OfdmSearch {
                        peak: s.peak,
                        cursor: s.cursor + 1152,
                        recorded: s.recorded,
                        per: s.per,
                        stage: OfdmStage::Over,
                    },
                    OfdmWish::Frame(
                        qam::rolled(all.take(8 * len as int)),
                        if s.peak >= 128 {
                            s.peak - 128
                        } else {
                            0
                        },
                        s.cursor + 1152,
                    ),
                )
            }
        },
        _ => lose(s),
    }
}

/// What becomes of a receiver that gets the first `n` symbols of data of a frame.
pub open spec fn get_data(s: OfdmSearch, sent: Seq<u8>, n: nat) -> (OfdmSearch, OfdmWish)
    decreases n,
{
    if n == 0 {
        (s, OfdmWish::Lost)
    } else {
        after_data(
            get_data(s, sent, (n - 1) as nat).0,
            sent.subrange((n - 1) * s.per, (n - 1) * s.per + s.per),
        )
    }
}

/// A frame is read back when most copies of the bits of its length and all of its data are right
/// and it lies within the recording. It starts with the prefix of its preamble, or where the
/// recording does.
pub proof fn law_frame_is_read(bytes: Seq<u8>, peak: int, recorded: int, per: nat, raw: Seq<u8>)
    requires
        plausible(bytes.len()),
        per > 0,
        peak >= 0,
        voted_length(raw) == bytes.len(),
        peak + 1024 + (2 + bits::groups(8 * bytes.len(), per)) * 1152 <= recorded,
    ensures
        ({
            let s1 = begin(peak, recorded, per).0;
            let s2 = after_channel(s1).0;
            let s3 = after_length(s2, raw).0;
            let n = bits::groups(8 * bytes.len(), per);
            get_data(s3, filled(bytes, per), n).1 == OfdmWish::Frame(
                bytes,
                if peak >= 128 {
                    peak - 128
                } else {
                    0
                },
                peak + 1024 + (2 + n) * 1152,
            )
        }),
{
    let n = bits::groups(8 * bytes.len(), per);
    let s1 = begin(peak, recorded, per).0;
    let s2 = after_channel(s1).0;
    let s3 = after_length(s2, raw).0;
    let sent = filled(bytes, per);
    lemma_fill_len(8 * bytes.len(), per);
    assert(sent.len() == n * per);
    lemma_data(s3, bytes.len(), sent, (n - 1) as nat);
    let m = (n - 1) as nat;
    assert(m * per + per == n * per) by (nonlinear_arith)
        requires
            m == n - 1,
    ;
    assert(sent.take(m * per as int) + sent.subrange(m * per as int, m * per + per as int) =~= sent);
    assert(sent.take(8 * bytes.len() as int) =~= qam::unrolled(bytes));
    qam::law_roll_unroll(bytes, Seq::empty());
}

proof fn lemma_fill_len(n: nat, per: nat)
    requires
        per > 0,
        n > 0,
    ensures
        bits::groups(n, per) * per >= n,
        bits::groups(n, per) >= 1,
{
    let p = per as int;
    let g = (n + p - 1) / p;
    vstd::arithmetic::div_mod::lemma_fundamental_div_mod(n + p - 1, p);
    assert(g * p >= n && g >= 1) by (nonlinear_arith)
        requires
            p > 0,
            n > 0,
            n + p - 1 == p * g + (n + p - 1) % p,
            0 <= (n + p - 1) % p < p,
    ;
}

proof fn lemma_data(s: OfdmSearch, len: nat, sent: Seq<u8>, m: nat)
    requires
        s.per > 0,
        s.stage == (OfdmStage::Data {
            len,
            left: bits::groups(8 * len, s.per),
            got: Seq::empty(),
        }),
        m < bits::groups(8 * len, s.per),
        sent.len() == bits::groups(8 * len, s.per) * s.per,
        s.cursor + bits::groups(8 * len, s.per) * 1152 <= s.recorded,
    ensures
        get_data(s, sent, m).0 == (OfdmSearch {
            peak: s.peak,
            cursor: s.cursor + m * 1152,
            recorded: s.recorded,
            per: s.per,
            stage: OfdmStage::Data {
                len,
                left: (bits::groups(8 * len, s.per) - m) as nat,
                got: sent.take(m * s.per as int),
            },
        }),
    decreases m,
{
    if m == 0 {
        assert(sent.take(0 * s.per as int) =~= Seq::<u8>::empty());
    } else {
        let k = (m - 1) as nat;
        lemma_data(s, len, sent, k);
        let per = s.per;
        let n = bits::groups(8 * len, per);
        assert(k * per + per == m * per && m * per <= n * per && 0 <= k * per) by (nonlinear_arith)
            requires
                k == m - 1,
                m <= n,
                m >= 1,
        ;
        assert(sent.take(k * per as int) + sent.subrange(k * per as int, k * per + per as int)
            =~= sent.take(m * per as int));
    }
}

enum State {
    Channel,
    Length,
    Data { len: usize, left: usize, got: Vec<u8> },
    Over,
}

/// Reads a frame behind its preamble, asking for one symbol after the other.
pub struct OfdmReader {
    peak: usize,
    cursor: usize,
    recorded: usize,
    per: usize,
    state: State,
}

/// What a reader asks for.
#[derive(Debug, PartialEq, Eq)]
pub enum OfdmAsk {
    /// The spectrum of the samples from the given one on.
    Spectrum(usize),
    /// Nothing: the bytes of the frame, its first sample and the sample behind it.
    Frame(Vec<u8>, usize, usize),
    /// Nothing: there is no frame.
    Lost,
}

impl OfdmAsk {
    pub open spec fn wish(self) -> OfdmWish {
        match self {
            OfdmAsk::Spectrum(at) => OfdmWish::Spectrum(at as int),
            OfdmAsk::Frame(bytes, start, end) => OfdmWish::Frame(
                bytes@,
                start as int,
                end as int,
            ),
            OfdmAsk::Lost => OfdmWish::Lost,
        }
    }
}

impl View for OfdmReader {
    type V = OfdmSearch;

    closed spec fn view(&self) -> OfdmSearch {
        OfdmSearch {
            peak: self.peak as int,
            cursor: self.cursor as int,
            recorded: self.recorded as int,
            per: self.per as nat,
            stage: match self.state {
                State::Channel => OfdmStage::Channel,
                State::Length => OfdmStage::Length,
                State::Data { len, left, got } => OfdmStage::Data {
                    len: len as nat,
                    left: left as nat,
                    got: got@,
                },
                State::Over => OfdmStage::Over,
            },
        }
    }
}

impl OfdmReader {
    pub closed spec fn wf(&self) -> bool {
        &&& self.recorded + 5000 <= usize::MAX
        &&& self.cursor <= self.recorded + 1024
        &&& 0 < self.per <= 8192
        &&& match self.state {
            State::Data { len, left, got } => {
                &&& plausible(len as nat)
                &&& 1 <= left <= bits::groups(8 * len as nat, self.per as nat)
                &&& self.cursor + 1152 <= self.recorded
                &&& got@.len() == (bits::groups(8 * len as nat, self.per as nat) - left) * self.per
            },
            State::Channel | State::Length => self.cursor + 1152 <= self.recorded,
            State::Over => true,
        }
    }

    /// Starts at the sample where the useful part of the preamble was found.
    pub fn start(peak: usize, recorded: usize, per: usize) -> (r: (OfdmReader, OfdmAsk))
        requires
            peak <= recorded,
            recorded + 5000 <= usize::MAX,
            0 < per <= 8192,
        ensures
            r.0.wf(),
            (r.0@, r.1.wish()) == begin(peak as int, recorded as int, per as nat),
    {
        let cursor: usize = peak + N;
        if cursor + CP + N > recorded {
            return (
                OfdmReader { peak, cursor, recorded, per, state: State::Over },
                OfdmAsk::Lost,
            );
        }
        (
            OfdmReader { peak, cursor, recorded, per, state: State::Channel },
            OfdmAsk::Spectrum(cursor + CP),
        )
    }

    fn over(self) -> (r: (OfdmReader, OfdmAsk))
        requires
            self.wf(),
        ensures
            r.0.wf(),
            (r.0@, r.1.wish()) == lose(self@),
    {
        (
            OfdmReader {
                peak: self.peak,
                cursor: self.cursor,
                recorded: self.recorded,
                per: self.per,
                state: State::Over,
            },
            OfdmAsk::Lost,
        )
    }

    /// The channel was estimated.
    pub fn on_channel(self) -> (r: (OfdmReader, OfdmAsk))
        requires
            self.wf(),
            self@.stage is Channel,
        ensures
            r.0.wf(),
            (r.0@, r.1.wish()) == after_channel(self@),
    {
        let next: usize = self.cursor + SYMBOL;
        if next + CP + N > self.recorded {
            return self.over();
        }
        (
            OfdmReader {
                peak: self.peak,
                cursor: next,
                recorded: self.recorded,
                per: self.per,
                state: State::Length,
            },
            OfdmAsk::Spectrum(next + CP),
        )
    }

    /// The bits of the symbol that holds the length.
    pub fn on_length(self, raw: &[u8]) -> (r: (OfdmReader, OfdmAsk))
        requires
            self.wf(),
            self@.stage is Length,
            raw@.len() <= 0x7FFF_FFFF,
        ensures
            r.0.wf(),
            (r.0@, r.1.wish()) == after_length(self@, raw@),
    {
        let len: usize = length_of(raw);
        if !(OVERHEAD <= len && len <= MAX_FRAME) {
            return self.over();
        }
        let next: usize = self.cursor + SYMBOL;
        if next + CP + N > self.recorded {
            return self.over();
        }
        let left: usize = bits::group_count(len * 8, self.per);
        proof {
            lemma_fill_len(8 * len as nat, self.per as nat);
            assert((left - left) * self.per == 0);
        }
        (
            OfdmReader {
                peak: self.peak,
                cursor: next,
                recorded: self.recorded,
                per: self.per,
                state: State::Data { len, left, got: Vec::new() },
            },
            OfdmAsk::Spectrum(next + CP),
        )
    }

    /// The bits of a symbol of data.
    pub fn on_data(self, more: &[u8]) -> (r: (OfdmReader, OfdmAsk))
        requires
            self.wf(),
            self@.stage is Data,
            more@.len() == self@.per,
        ensures
            r.0.wf(),
            (r.0@, r.1.wish()) == after_data(self@, more@),
    {
        let peak: usize = self.peak;
        let recorded: usize = self.recorded;
        let per: usize = self.per;
        let cursor: usize = self.cursor;
        match self.state {
            State::Data { len, left, got } => {
                let ghost n = bits::groups(8 * len as nat, per as nat);
                let ghost before = got@;
                let mut all: Vec<u8> = got;
                all.extend_from_slice(more);
                let next: usize = cursor + SYMBOL;
                proof {
                    assert(all@ =~= before + more@);
                    assert(all@.len() == (n - (left - 1)) * per) by (nonlinear_arith)
                        requires
                            all@.len() == (n - left) * per + per,
                    ;
                }
                if left > 1 {
                    if next + CP + N > recorded {
                        return (
                            OfdmReader { peak, cursor, recorded, per, state: State::Over },
                            OfdmAsk::Lost,
                        );
                    }
                    return (
                        OfdmReader {
                            peak,
                            cursor: next,
                            recorded,
                            per,
                            state: State::Data { len, left: left - 1, got: all },
                        },
                        OfdmAsk::Spectrum(next + CP),
                    );
                }
                proof {
                    lemma_fill_len(8 * len as nat, per as nat);
                }
                let ghost full = all@;
                all.truncate(len * 8);
                assert(all@ =~= full.take(8 * len as int));
                let bytes: Vec<u8> = qam::bits_to_bytes(&all);
                let start: usize = if peak >= CP {
                    peak - CP
                } else {
                    0
                };
                (
                    OfdmReader { peak, cursor: next, recorded, per, state: State::Over },
                    OfdmAsk::Frame(bytes, start, next),
                )
            },
            _ => (OfdmReader { peak, cursor, recorded, per, state: State::Over }, OfdmAsk::Lost),
        }
    }
}

/// The length that the copies agree on.
fn length_of(raw: &[u8]) -> (r: usize)
    requires
        raw@.len() <= 0x7FFF_FFFF,
    ensures
        r == voted_length(raw@),
{
    let mut len_bits: Vec<u8> = Vec::with_capacity(16);
    let mut pos: usize = 0;
    while pos < 16
        invariant
            pos <= 16,
            raw@.len() <= 0x7FFF_FFFF,
            len_bits@ == voted_bits(raw@).take(pos as int),
        decreases 16 - pos,
    {
        let mut votes: i32 = 0;
        let mut i: usize = 0;
        while i < raw.len()
            invariant
                i <= raw@.len() <= 0x7FFF_FFFF,
                -(i as int) <= votes <= i,
                votes == margin(raw@, pos as int, i as nat),
            decreases raw@.len() - i,
        {
            if i % 16 == pos {
                if raw[i] == 1 {
                    votes = votes + 1;
                } else {
                    votes = votes - 1;
                }
            }
            i += 1;
        }
        len_bits.push(
            if votes > 0 {
                1
            } else {
                0
            },
        );
        pos += 1;
        assert(len_bits@ =~= voted_bits(raw@).take(pos as int));
    }
    assert(len_bits@ =~= voted_bits(raw@));
    let b: Vec<u8> = qam::bits_to_bytes(&len_bits);
    b[0] as usize * 256 + b[1] as usize
}

/// The shortest recording that can hold a frame.
pub fn min_frame() -> (r: usize)
    ensures
        r == 4 * 1152,
{
    4 * SYMBOL
}

/// Index `i` is that of the first of the best metrics among those with enough energy.
pub open spec fn is_peak(metrics: Seq<u32>, energies: Seq<u32>, floor: u32, i: int) -> bool {
    &&& 0 <= i < metrics.len()
    &&& energies[i] >= floor
    &&& forall|j: int|
        0 <= j < metrics.len() && #[trigger] energies[j] >= floor ==> metrics[j] <= metrics[i] && (j
            < i ==> metrics[j] < metrics[i])
}

/// Where the halves of the preamble are most alike: the first of the best metrics, among those with
/// enough energy, if it reaches the threshold. Metrics and energies are given by numbers in the
/// same order.
pub fn pick_peak(metrics: &[u32], energies: &[u32], floor: u32, threshold: u32) -> (r: Option<
    usize,
>)
    requires
        metrics@.len() == energies@.len(),
    ensures
        match r {
            Some(i) => is_peak(metrics@, energies@, floor, i as int) && metrics@[i as int]
                >= threshold,
            None => forall|j: int|
                0 <= j < metrics@.len() && #[trigger] energies@[j] >= floor ==> metrics@[j]
                    < threshold,
        },
{
    let mut best: Option<usize> = None;
    let mut i: usize = 0;
    while i < metrics.len()
        invariant
            i <= metrics@.len(),
            metrics@.len() == energies@.len(),
            match best {
                Some(b) => {
                    &&& b < i
                    &&& energies@[b as int] >= floor
                    &&& forall|j: int|
                        0 <= j < i && #[trigger] energies@[j] >= floor ==> metrics@[j]
                            <= metrics@[b as int] && (j < b ==> metrics@[j] < metrics@[b as int])
                },
                None => forall|j: int| 0 <= j < i ==> #[trigger] energies@[j] < floor,
            },
        decreases metrics@.len() - i,
    {
        if energies[i] >= floor {
            let better: bool = match best {
                Some(b) => metrics[i] > metrics[b],
                None => true,
            };
            if better {
                best = Some(i);
            }
        }
        i += 1;
    }
    match best {
        Some(b) => if metrics[b] >= threshold {
            Some(b)
        } else {
            None
        },
        None => None,
    }
}

/// A symbol with the cyclic prefix before it: its own end.
pub fn with_prefix<S: Copy>(useful: &[S]) -> (r: Vec<S>)
    requires
        useful@.len() == 1024,
    ensures
        r@ == useful@.skip(896) + useful@,
{
    let mut out: Vec<S> = Vec::new();
    let mut i: usize = 0;
    while i < CP
        invariant
            i <= 128,
            useful@.len() == 1024,
            out@ == useful@.subrange(896, 896 + i),
        decreases 128 - i,
    {
        out.push(useful[N - CP + i]);
        assert(out@ =~= useful@.subrange(896, 896 + i + 1));
        i += 1;
    }
    let ghost head = out@;
    assert(head =~= useful@.skip(896));
    let mut k: usize = 0;
    assert(head + useful@.take(0) =~= head);
    while k < N
        invariant
            k <= 1024,
            useful@.len() == 1024,
            out@ == head + useful@.take(k as int),
        decreases 1024 - k,
    {
        out.push(useful[k]);
        assert(out@ =~= head + useful@.take(k + 1));
        k += 1;
    }
    assert(useful@.take(1024) =~= useful@);
    out
}

/// Whatever part of a symbol with its prefix is taken, of the length of a symbol and starting in
/// the prefix, it is the symbol turned around by as much as it starts early: an echo or a wrong
/// start within the prefix mixes no two symbols.
pub proof fn law_prefix_is_cyclic<S>(useful: Seq<S>, early: int, i: int)
    requires
        useful.len() == 1024,
        0 <= early <= 128,
        0 <= i < 1024,
    ensures
        (useful.skip(896) + useful)[128 - early + i] == useful[(i - early) % 1024],
{
}

/// Where symbols are taken to start when the preamble correlates best at `best`: a little inside
/// the prefix, so that echoes do not reach into the next symbol.
pub fn timing(best: usize) -> (r: usize)
    ensures
        r == if best >= 16 {
            best - 16
        } else {
            0
        },
{
    if best >= CP / 8 {
        best - CP / 8
    } else {
        0
    }
}

/// How many of the first `n` bits are copies of bit `pos` of the length.
pub open spec fn copies(pos: int, n: nat) -> int
    decreases n,
{
    if n == 0 {
        0
    } else {
        copies(pos, (n - 1) as nat) + (if (n - 1) % 16 == pos {
            1int
        } else {
            0int
        })
    }
}

/// How many of the copies of bit `pos` among the first `n` bits are not what was sent.
pub open spec fn wrong_copies(raw: Seq<u8>, len: u16, pos: int, n: nat) -> int
    decreases n,
{
    if n == 0 {
        0
    } else {
        wrong_copies(raw, len, pos, (n - 1) as nat) + (if (n - 1) % 16 == pos && raw[n - 1]
            != qam::unrolled(be16(len))[pos] {
            1int
        } else {
            0int
        })
    }
}

proof fn lemma_margin_counts(raw: Seq<u8>, len: u16, pos: int, n: nat)
    requires
        0 <= pos < 16,
        n <= raw.len(),
        qam::are_bits(raw),
    ensures
        margin(raw, pos, n) == (if qam::unrolled(be16(len))[pos] == 1 {
            copies(pos, n) - 2 * wrong_copies(raw, len, pos, n)
        } else {
            2 * wrong_copies(raw, len, pos, n) - copies(pos, n)
        }),
    decreases n,
{
    qam::law_roll_unroll(be16(len), Seq::empty());
    let sent = qam::unrolled(be16(len));
    assert(sent.len() == 16);
    assert(sent[pos] <= 1);
    if n > 0 {
        lemma_margin_counts(raw, len, pos, (n - 1) as nat);
        assert(raw[n - 1] <= 1);
    }
}

/// The length is understood whenever of every one of its bits more than half of the copies arrive
/// right, whichever those are.
pub proof fn law_most_copies_are_enough(raw: Seq<u8>, len: u16)
    requires
        qam::are_bits(raw),
        forall|pos: int|
            0 <= pos < 16 ==> 2 * #[trigger] wrong_copies(raw, len, pos, raw.len()) < copies(
                pos,
                raw.len(),
            ),
    ensures
        voted_length(raw) == len,
{
    qam::law_roll_unroll(be16(len), Seq::empty());
    assert(qam::unrolled(be16(len)).len() == 16);
    assert forall|pos: int| 0 <= pos < 16 implies (#[trigger] qam::unrolled(be16(len))[pos] == 1
        <==> margin(raw, pos, raw.len()) > 0) by {
        lemma_margin_counts(raw, len, pos, raw.len());
        assert(2 * wrong_copies(raw, len, pos, raw.len()) < copies(pos, raw.len()));
    }
    law_length_vote(len, raw);
}

/// The length is sent over and over in sixteen bits, the highest first.
pub proof fn law_length_is_repeated(len: u16, count: nat, i: int)
    requires
        0 <= i < count,
    ensures
        tiled(len, count).len() == count,
        tiled(len, count)[i] == tiled(len, count)[i % 16],
        count >= 16 ==> {
            let b = qam::rolled(tiled(len, count).take(16));
            b.len() == 2 && b[0] * 256 + b[1] == len
        },
{
    let sent = qam::unrolled(be16(len));
    assert(sent.len() == 16);
    assert((i % 16) % 16 == i % 16);
    if count >= 16 {
        assert(tiled(len, count).take(16) =~= sent);
        qam::law_roll_unroll(be16(len), Seq::empty());
    }
}

/// The bits of a frame are followed by zeros up to whole symbols, as few as there can be.
pub proof fn law_data_is_filled_up(bytes: Seq<u8>, per: nat)
    requires
        per > 0,
    ensures
        ({
            let sent = filled(bytes, per);
            &&& sent.len() % per == 0
            &&& 8 * bytes.len() <= sent.len() < 8 * bytes.len() + per
            &&& sent.take(8 * bytes.len() as int) == qam::unrolled(bytes)
            &&& forall|i: int| 8 * bytes.len() <= i < sent.len() ==> #[trigger] sent[i] == 0
        }),
{
    let n = 8 * bytes.len();
    let g = bits::groups(n, per);
    bits::law_groups_are_fewest(n, per);
    let sent = filled(bytes, per);
    assert(sent.len() == g * per);
    vstd::arithmetic::div_mod::lemma_mod_multiples_basic(g as int, per as int);
    assert(g * per == (g - 1) * per + per) by (nonlinear_arith);
    if n == 0 {
        assert(g * per == 0) by (nonlinear_arith)
            requires
                g == 0,
        ;
    }
    assert((g * per) % per == 0);
    assert(sent.take(n as int) =~= qam::unrolled(bytes));
}

/// The highest subcarrier in use is the last that lies at least two spacings inside the edge of the
/// band.
pub proof fn law_highest_subcarrier(bandwidth_hz: int, sample_rate: int)
    requires
        bandwidth_hz >= 0,
        sample_rate > 0,
        top_bin(bandwidth_hz, sample_rate) > 0,
    ensures
        (top_bin(bandwidth_hz, sample_rate) + 2) * sample_rate <= bandwidth_hz * 512,
        bandwidth_hz * 512 < (top_bin(bandwidth_hz, sample_rate) + 3) * sample_rate,
{
    let x = bandwidth_hz * 512;
    let q = x / sample_rate;
    vstd::arithmetic::div_mod::lemma_fundamental_div_mod(x, sample_rate);
    assert(q * sample_rate <= x < (q + 1) * sample_rate) by (nonlinear_arith)
        requires
            sample_rate > 0,
            x == sample_rate * q + x % sample_rate,
            0 <= x % sample_rate < sample_rate,
    ;
    assert(top_bin(bandwidth_hz, sample_rate) == q - 2);
}

/// The subcarriers in use are those from the second to the highest, in order, and then their mirror
/// images, and no others.
pub proof fn law_subcarriers_in_use(top: int, b: usize)
    requires
        top <= 511,
    ensures
        active_bins(top).contains(b) <==> 2 <= b <= top || 1024 - top <= b <= 1022,
        forall|i: int|
            0 <= i < top - 1 ==> {
                &&& #[trigger] active_bins(top)[i] == i + 2
                &&& active_bins(top)[i] + active_bins(top)[i + top - 1] == 1024
            },
{
    if 2 <= b <= top {
        assert(active_bins(top)[b - 2] == b);
    }
    if 1024 - top <= b <= 1022 {
        assert(active_bins(top)[1024 - b - 2 + top - 1] == b);
    }
}

/// A known subcarrier takes its signs from the hash of its one byte: the real part from the lowest
/// bit, the imaginary part from the next.
pub proof fn law_known_points(seed: u64)
    ensures
        known_point(seed).re == (if mix(seed) % 2 == 0 { 1int } else { -1 }),
        known_point(seed).im == (if mix(seed) / 2 % 2 == 0 { 1int } else { -1 }),
        seed < 256 ==> {
            let h = crate::discovery::fnv(seq![seed as u8]);
            mix(seed) == h ^ (h >> 29u64)
        },
{
    let m = mix(seed);
    assert((m & 1u64 == 0 <==> m % 2 == 0) && (m & 2u64 == 0 <==> m / 2 % 2 == 0)) by (bit_vector);
    if seed < 256 {
        let one = seq![seed as u8];
        assert(one.drop_last() =~= Seq::<u8>::empty());
        assert(crate::discovery::fnv(one.drop_last()) == 0xcbf29ce484222325u64);
    }
}

/// The symbols of a frame lie one behind the other, from the end of the preamble on: the one by
/// which the channel is estimated, the length, and the data. Each is asked for behind its prefix,
/// and where the recording ends the frame is lost, as it is where its length is not plausible.
pub proof fn law_symbols_are_asked_in_turn(s: OfdmSearch, peak: int, recorded: int, per: nat, raw: Seq<u8>)
    ensures
        begin(peak, recorded, per).1 == (if peak + 2176 <= recorded {
            OfdmWish::Spectrum(peak + 1152)
        } else {
            OfdmWish::Lost
        }),
        after_channel(s).1 == (if s.cursor + 2304 <= s.recorded {
            OfdmWish::Spectrum(s.cursor + 1280)
        } else {
            OfdmWish::Lost
        }),
        after_channel(s).1 is Spectrum ==> after_channel(s).0.cursor == s.cursor + 1152,
        after_length(s, raw).1 == (if 16 <= voted_length(raw) <= 8192 && s.cursor + 2304
            <= s.recorded {
            OfdmWish::Spectrum(s.cursor + 1280)
        } else {
            OfdmWish::Lost
        }),
        after_length(s, raw).1 is Spectrum ==> after_length(s, raw).0.cursor == s.cursor + 1152,
        s.stage is Data && s.stage->left > 1 ==> after_data(s, raw).1 == (if s.cursor + 2304
            <= s.recorded {
            OfdmWish::Spectrum(s.cursor + 1280)
        } else {
            OfdmWish::Lost
        }),
{
}

/// The peak is not beaten by any place with enough energy, nor reached by one before it.
pub proof fn law_peak_is_the_first_best(
    metrics: Seq<u32>,
    energies: Seq<u32>,
    floor: u32,
    i: int,
    j: int,
)
    requires
        metrics.len() == energies.len(),
        is_peak(metrics, energies, floor, i),
        0 <= j < metrics.len(),
        energies[j] >= floor,
    ensures
        energies[i] >= floor,
        metrics[j] <= metrics[i],
        metrics[j] == metrics[i] ==> i <= j,
{
}

/// A symbol has 1024 samples behind a prefix of 128, and every eighth subcarrier in use is a pilot.
pub proof fn law_numbers_of_symbols()
    ensures
        N == 1024,
        CP == 128,
        SYMBOL == 1152,
        PILOT_STRIDE == 8,
{
}

} // verus!
