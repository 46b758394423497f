//! Automatic repetition: a sliding window with selective repeat, and the choice of the mode as
//! the channel gets worse or better.
//!
//! Time is passed in, so every step is a function of its arguments. Frame numbers are sixteen
//! bits wide and a session does not send enough messages to reuse them.

use vstd::prelude::*;
use crate::framing::PhyMode;

pub mod fallback;
pub mod receiver;
pub mod sender;

pub use fallback::AutoFallback;
pub use receiver::ArqReceiver;
pub use sender::ArqSender;

verus! {

/// The number `n` wrapped to sixteen bits.
pub open spec fn wrap(n: int) -> u16 {
    (n % 0x10000) as u16
}

/// `a` comes before `b` in the circle of frame numbers.
pub open spec fn seq_before(a: u16, b: u16) -> bool {
    (a - b) % 0x10000 >= 0x8000
}

/// Bit `i` of a bitmap.
pub open spec fn bit(map: u32, i: int) -> bool {
    (map >> (i as u32)) & 1u32 == 1u32
}

/// The acknowledgement covers the frame: it is not after `cumulative`, or its bit is set.
pub open spec fn acknowledges(cumulative: u16, sack: u32, seq: u16) -> bool {
    ||| seq == cumulative
    ||| seq_before(seq, cumulative)
    ||| (seq - cumulative - 1) % 0x10000 < 32 && bit(sack, (seq - cumulative - 1) % 0x10000)
}

pub(crate) fn seq_lt(a: u16, b: u16) -> (r: bool)
    ensures
        r == seq_before(a, b),
{
    a.wrapping_sub(b) >= 0x8000
}

pub(crate) fn seq_le(a: u16, b: u16) -> (r: bool)
    ensures
        r == (a == b || seq_before(a, b)),
{
    a == b || seq_lt(a, b)
}

/// The limits that a sender works by.
#[derive(Debug, Clone, Copy, PartialEq, Eq, Structural)]
pub struct ArqConfig {
    /// How many frames may wait for their acknowledgement.
    pub window: usize,
    /// How long a frame waits before it is sent again.
    pub timeout_ms: u64,
    /// How often a frame is sent again before the link counts as down.
    pub max_retries: u32,
}

impl ArqConfig {
    /// The limits for a mode: a window of 32 where subcarriers are fast and 4 elsewhere, and a
    /// timeout of three round trips, not less than 300 ms. `triple_rtt_ms` is three times the
    /// round trip, in whole milliseconds.
    pub fn for_mode(mode: PhyMode, triple_rtt_ms: u64) -> (r: Self)
        ensures
            r.window == if mode.ofdm() {
                32usize
            } else {
                4usize
            },
            r.timeout_ms == if triple_rtt_ms >= 300 {
                triple_rtt_ms
            } else {
                300
            },
            r.max_retries == 8,
    {
        let window: usize = if mode.is_ofdm() {
            32
        } else {
            4
        };
        let timeout_ms: u64 = if triple_rtt_ms >= 300 {
            triple_rtt_ms
        } else {
            300
        };
        ArqConfig { window, timeout_ms, max_retries: 8 }
    }
}

/// Of two numbers the one before the other is less than half the circle behind it: `a` comes before
/// the number `d` steps on exactly if `d` is between one and half the circle.
pub proof fn law_before_is_half_the_circle(a: u16, d: int)
    requires
        0 <= d < 0x10000,
    ensures
        seq_before(a, wrap(a + d)) <==> 1 <= d <= 0x8000,
{
}

/// A bit of a bitmap is that binary digit of its number.
pub proof fn law_bit_is_a_digit(map: u32, i: int)
    requires
        0 <= i < 32,
    ensures
        bit(map, i) <==> map as nat / vstd::arithmetic::power2::pow2(i as nat) % 2 == 1,
{
    vstd::bits::lemma_u32_shr_is_div(map, i as u32);
    let x = map >> (i as u32);
    assert(x & 1u32 == x % 2) by (bit_vector);
}

/// An acknowledgement covers the last number and the half circle up to it, those of the 32 numbers
/// behind it whose bits are set, the next one first, and no other.
pub proof fn law_acknowledgement_covers(cumulative: u16, sack: u32, d: int)
    ensures
        0 <= d <= 0x7FFF ==> acknowledges(cumulative, sack, wrap(cumulative - d)),
        0 <= d < 32 ==> (acknowledges(cumulative, sack, wrap(cumulative + 1 + d)) <==> bit(sack, d)),
        32 <= d < 0x7FFF ==> !acknowledges(cumulative, sack, wrap(cumulative + 1 + d)),
{
    if 0 <= d <= 0x7FFF {
        let s = wrap(cumulative - d);
        assert(s == cumulative || seq_before(s, cumulative));
    }
    if 0 <= d < 0x7FFF {
        let s = wrap(cumulative + 1 + d);
        assert((s - cumulative - 1) % 0x10000 == d);
        assert(s != cumulative && !seq_before(s, cumulative));
    }
}

} // verus!
