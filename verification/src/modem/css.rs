//! The layout of chirp spread spectrum.
//!
//! A symbol is a chirp that starts at a shift of its own. The signal is oversampled by a whole
//! factor, so that each symbol falls on a bin of its own after the chirp is taken out.

use vstd::arithmetic::power2::pow2;
use vstd::prelude::*;
use crate::bandplan::SubBand;
use crate::framing::OVERHEAD;
use crate::modem::bits;
use crate::modem::reader;

verus! {

/// The sync symbol, which guards against noise and music.
pub const MAGIC_SYNC: u16 = 0x2B;

/// Upward chirps by which a frame is found.
pub const PREAMBLE_UP: usize = 8;

/// Downward chirps at the end of the preamble.
pub const PREAMBLE_DOWN: usize = 2;

pub const SYNC_SYMS: usize = 1;

/// The bits of a symbol, and the widest band that may be used.
#[derive(Debug, Clone, Copy, PartialEq, Eq, Structural)]
pub struct CssParams {
    pub sf: u32,
    pub bandwidth_hz: u32,
}

impl Default for CssParams {
    fn default() -> (r: Self)
        ensures
            r == (CssParams { sf: 8, bandwidth_hz: 6000 }),
    {
        CssParams { sf: 8, bandwidth_hz: 6000 }
    }
}

/// A hundred times the widest band that may be used: 98 percent of the band, and no more than the
/// parameters allow.
pub open spec fn widest(band: SubBand, params: CssParams) -> int {
    let of_band = (band.high - band.low) * 98;
    let of_params = params.bandwidth_hz * 100;
    if of_band <= of_params {
        of_band
    } else {
        of_params
    }
}

/// The least whole factor by which the sample rate is above the band used.
pub open spec fn oversampling(band: SubBand, sample_rate: u32, params: CssParams) -> nat {
    let w = widest(band, params);
    let up = (sample_rate * 100 + w - 1) / w;
    if up >= 1 {
        up as nat
    } else {
        1
    }
}

/// The numbers by which chirps are made and read.
#[derive(Debug, Clone, Copy, PartialEq, Eq, Structural)]
pub struct CssLayout {
    sf: u32,
    osf: usize,
    n_sym: usize,
    sps: usize,
}

impl CssLayout {
    pub closed spec fn width(&self) -> nat {
        self.sf as nat
    }

    /// The oversampling factor.
    pub closed spec fn factor(&self) -> nat {
        self.osf as nat
    }

    /// The number of different symbols.
    pub closed spec fn alphabet_size(&self) -> nat {
        self.n_sym as nat
    }

    /// The samples of one symbol.
    pub closed spec fn symbol_len(&self) -> nat {
        self.sps as nat
    }

    pub closed spec fn wf(&self) -> bool {
        &&& 1 <= self.sf <= 16
        &&& self.osf >= 1
        &&& self.n_sym == pow2(self.sf as nat)
        &&& self.n_sym >= 2
        &&& self.sps == self.osf * self.n_sym
    }

    /// What holds of every layout: a symbol is a whole multiple of the alphabet.
    pub proof fn lemma_layout(&self)
        requires
            self.wf(),
        ensures
            1 <= self.width() <= 16,
            self.factor() >= 1,
            self.alphabet_size() == pow2(self.width()),
            self.symbol_len() == self.factor() * self.alphabet_size(),
            self.symbol_len() >= self.alphabet_size() >= 2,
    {
        assert(self.sps >= self.n_sym) by (nonlinear_arith)
            requires
                self.sps == self.osf * self.n_sym,
                self.osf >= 1,
        ;
    }

    pub fn new(band: SubBand, sample_rate: u32, params: CssParams) -> (r: Self)
        requires
            band.wf(),
            widest(band, params) > 0,
            1 <= params.sf <= 16,
            oversampling(band, sample_rate, params) * pow2(params.sf as nat) <= usize::MAX,
        ensures
            r.wf(),
            r.width() == params.sf,
            r.factor() == oversampling(band, sample_rate, params),
            r.alphabet_size() == pow2(params.sf as nat),
            r.symbol_len() == r.factor() * r.alphabet_size(),
    {
        let of_band: u64 = (band.high - band.low) as u64 * 98;
        let of_params: u64 = params.bandwidth_hz as u64 * 100;
        let widest: u64 = if of_band <= of_params {
            of_band
        } else {
            of_params
        };
        let up: u64 = (sample_rate as u64 * 100 + widest - 1) / widest;
        let osf64: u64 = if up >= 1 {
            up
        } else {
            1
        };
        let n_sym: usize = power_of_two(params.sf);
        proof {
            let f = osf64 as int;
            let p = n_sym as int;
            assert(f <= f * p) by (nonlinear_arith)
                requires
                    f >= 0,
                    p >= 1,
            ;
        }
        let osf: usize = osf64 as usize;
        CssLayout { sf: params.sf, osf, n_sym, sps: osf * n_sym }
    }

    pub fn with_defaults(band: SubBand, sample_rate: u32) -> (r: Self)
        requires
            band.low < band.high,
            oversampling(band, sample_rate, (CssParams { sf: 8, bandwidth_hz: 6000 })) * 256
                <= usize::MAX,
        ensures
            r.wf(),
            r.width() == 8,
            r.factor() == oversampling(
                band,
                sample_rate,
                (CssParams { sf: 8, bandwidth_hz: 6000 }),
            ),
            r.alphabet_size() == 256,
            r.symbol_len() == r.factor() * 256,
    {
        proof {
            vstd::arithmetic::power2::lemma2_to64();
        }
        Self::new(band, sample_rate, CssParams::default())
    }

    pub fn samples_per_symbol(&self) -> (r: usize)
        ensures
            r == self.symbol_len(),
    {
        self.sps
    }

    pub fn symbol_count(&self) -> (r: usize)
        ensures
            r == self.alphabet_size(),
    {
        self.n_sym
    }

    pub fn oversampling_factor(&self) -> (r: usize)
        ensures
            r == self.factor(),
    {
        self.osf
    }

    pub fn spreading_factor(&self) -> (r: u32)
        ensures
            r == self.width(),
    {
        self.sf
    }

    /// The sample of the plain chirp that is sample `n` of symbol `s`.
    pub fn chirp_index(&self, s: u16, n: usize) -> (r: usize)
        requires
            self.wf(),
            s < self.alphabet_size(),
            n < self.symbol_len(),
        ensures
            r == (n + s * self.factor()) % (self.symbol_len() as int),
    {
        proof {
            let o = self.osf as int;
            let q = self.n_sym as int;
            assert(s * o < o * q) by (nonlinear_arith)
                requires
                    s < q,
                    o >= 1,
            ;
            assert(0 <= s * o) by (nonlinear_arith)
                requires
                    o >= 1,
            ;
        }
        let shift: usize = s as usize * self.osf;
        // both are below the length of a symbol
        if n < self.sps - shift {
            proof {
                vstd::arithmetic::div_mod::lemma_small_mod((n + shift) as nat, self.sps as nat);
            }
            n + shift
        } else {
            proof {
                vstd::arithmetic::div_mod::lemma_fundamental_div_mod_converse(
                    n + shift,
                    self.sps as int,
                    1,
                    n + shift - self.sps,
                );
            }
            n - (self.sps - shift)
        }
    }

    /// The symbol that a bin number wraps to.
    pub fn wrap_symbol(&self, bin: i64) -> (r: u16)
        requires
            self.wf(),
        ensures
            r == bin as int % (self.alphabet_size() as int),
    {
        proof {
            vstd::arithmetic::power2::lemma2_to64();
            if self.sf < 16 {
                vstd::arithmetic::power2::lemma_pow2_strictly_increases(self.sf as nat, 16);
            }
            assert(self.n_sym <= 0x10000);
        }
        match bin.checked_rem_euclid(self.n_sym as i64) {
            Some(m) => m as u16,
            None => 0,
        }
    }

    /// The symbols before the body of a frame.
    pub open spec fn header_len(&self) -> nat {
        11 + 3 * reader::length_width(self.width())
    }

    pub fn header_slots(&self) -> (r: usize)
        requires
            self.wf(),
        ensures
            r == self.header_len(),
            r <= 59,
    {
        PREAMBLE_UP + PREAMBLE_DOWN + SYNC_SYMS + reader::LEN_REPS * reader::len_syms(self.sf)
    }

    pub fn len_syms(&self) -> (r: usize)
        requires
            self.wf(),
        ensures
            r == reader::length_width(self.width()),
    {
        reader::len_syms(self.sf)
    }

    pub fn body_syms(&self, nbytes: usize) -> (r: usize)
        requires
            self.wf(),
            8 * nbytes + 16 <= usize::MAX,
        ensures
            r == bits::groups(8 * nbytes as nat, self.width()),
    {
        reader::body_syms(nbytes, self.sf)
    }

    /// The samples of the shortest recording that can hold a frame.
    pub fn min_frame(&self) -> (r: usize)
        requires
            self.wf(),
            self.header_len() * self.symbol_len() <= usize::MAX,
        ensures
            r == self.header_len() * self.symbol_len(),
    {
        self.header_slots() * self.sps
    }

    /// The samples that a frame with a payload of the given length takes.
    pub fn frame_samples(&self, payload_len: usize) -> (r: usize)
        requires
            self.wf(),
            8 * (OVERHEAD + payload_len) + 16 <= usize::MAX,
            (self.header_len() + bits::groups(8 * (OVERHEAD + payload_len) as nat, self.width()))
                * self.symbol_len() <= usize::MAX,
        ensures
            r == (self.header_len() + bits::groups(
                8 * (OVERHEAD + payload_len) as nat,
                self.width(),
            )) * self.symbol_len(),
    {
        let frame_len: usize = OVERHEAD + payload_len;
        let slots: usize = self.header_slots();
        let body: usize = self.body_syms(frame_len);
        proof {
            self.lemma_layout();
            assert(slots + body <= (slots + body) * self.sps) by (nonlinear_arith)
                requires
                    self.sps >= 1,
            ;
        }
        (slots + body) * self.sps
    }

    /// The symbols of a frame behind the chirps of the preamble.
    pub fn frame_symbols(&self, frame_bytes: &[u8]) -> (r: Vec<u16>)
        requires
            self.wf(),
            8 * frame_bytes@.len() + 100 <= usize::MAX,
        ensures
            r@ == reader::on_air(frame_bytes@, self.width(), MAGIC_SYNC),
    {
        reader::frame_symbols(frame_bytes, self.sf, MAGIC_SYNC)
    }
}

/// The band used is the widest that fits: one step less of oversampling would not fit.
pub proof fn law_oversampling_is_least(band: SubBand, sample_rate: u32, params: CssParams)
    requires
        widest(band, params) > 0,
    ensures
        sample_rate * 100 <= oversampling(band, sample_rate, params) * widest(band, params),
        oversampling(band, sample_rate, params) > 1 ==> sample_rate * 100 > (oversampling(
            band,
            sample_rate,
            params,
        ) - 1) * widest(band, params),
{
    let w = widest(band, params);
    let n = sample_rate * 100 + w - 1;
    let up = n / w;
    vstd::arithmetic::div_mod::lemma_fundamental_div_mod(n, w);
    assert(sample_rate * 100 <= up * w && (up - 1) * w < sample_rate * 100) by (nonlinear_arith)
        requires
            w > 0,
            n == w * up + n % w,
            0 <= n % w < w,
            n == sample_rate * 100 + w - 1,
    ;
    assert(up < 1 ==> sample_rate * 100 <= 1 * w) by (nonlinear_arith)
        requires
            sample_rate * 100 <= up * w,
            w > 0,
    ;
}

/// Different symbols start at different samples of the chirp.
pub proof fn law_shifts_differ(factor: nat, size: nat, a: u16, b: u16)
    requires
        factor >= 1,
        a < size,
        b < size,
        a != b,
    ensures
        (a * factor) % (factor * size) as int != (b * factor) % (factor * size) as int,
{
    let m = (factor * size) as int;
    assert(0 <= a * factor < m && 0 <= b * factor < m && a * factor != b * factor)
        by (nonlinear_arith)
        requires
            factor >= 1,
            a < size,
            b < size,
            a != b,
            m == factor * size,
    ;
    vstd::arithmetic::div_mod::lemma_small_mod((a * factor) as nat, m as nat);
    vstd::arithmetic::div_mod::lemma_small_mod((b * factor) as nat, m as nat);
}

fn power_of_two(k: u32) -> (r: usize)
    requires
        k <= 16,
    ensures
        r == pow2(k as nat),
        k >= 1 ==> r >= 2,
{
    let mut r: usize = 1;
    let mut i: u32 = 0;
    proof {
        vstd::arithmetic::power2::lemma2_to64();
    }
    while i < k
        invariant
            i <= k <= 16,
            r == pow2(i as nat),
            r <= 0x10000,
            i >= 1 ==> r >= 2,
            r >= 1,
        decreases k - i,
    {
        proof {
            vstd::arithmetic::power2::lemma_pow2_unfold((i + 1) as nat);
            vstd::arithmetic::power2::lemma2_to64();
            if i + 1 < 16 {
                vstd::arithmetic::power2::lemma_pow2_strictly_increases((i + 1) as nat, 16);
            }
        }
        r = r * 2;
        i += 1;
    }
    r
}

/// No more of the spectrum is used than 98 percent of the band and what the parameters allow, and
/// no less than the smaller of them.
pub proof fn law_widest_band(band: SubBand, params: CssParams)
    ensures
        widest(band, params) <= 98 * (band.high - band.low),
        widest(band, params) <= 100 * params.bandwidth_hz,
        widest(band, params) == 98 * (band.high - band.low) || widest(band, params) == 100
            * params.bandwidth_hz,
{
}

/// Before the body come eight chirps up, two down, the sync symbol, and three times the length.
pub proof fn law_header_symbols(layout: CssLayout, bytes: Seq<u8>)
    requires
        layout.wf(),
    ensures
        layout.header_len() + bits::groups(8 * bytes.len(), layout.width()) == 10
            + reader::on_air(bytes, layout.width(), MAGIC_SYNC).len(),
{
}

/// The preamble is eight chirps up and two down, and the sync symbol behind it is 43.
pub proof fn law_numbers_of_chirps()
    ensures
        PREAMBLE_UP == 8,
        PREAMBLE_DOWN == 2,
        SYNC_SYMS == 1,
        MAGIC_SYNC == 43,
{
}

} // verus!
