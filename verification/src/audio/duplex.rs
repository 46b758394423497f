//! Taking turns on one band: while a device sends, it does not listen to itself.

use vstd::prelude::*;
use crate::bandplan::{Profile, Role};

verus! {

/// How long the room and the sound card are given after the last sample was played, in
/// nanoseconds.
pub const TX_TAIL_NS: u64 = 220_000_000;

/// What an engine is started with. Without a name the system's own device is taken.
#[derive(Debug, Clone, PartialEq, Eq)]
pub struct EngineConfig {
    pub profile: Profile,
    pub role: Role,
    pub input_device: Option<String>,
    pub output_device: Option<String>,
}

/// A fraction rounded to the nearest whole number, and to the even one of two that are equally
/// near.
pub open spec fn rounded(num: nat, den: nat) -> nat {
    let whole = num / den;
    let rest = num % den;
    if 2 * rest > den || (2 * rest == den && whole % 2 == 1) {
        whole + 1
    } else {
        whole
    }
}

/// How long samples play, in nanoseconds, to the nearest.
pub open spec fn playing_ns(samples: nat, rate: u32) -> nat {
    rounded(
        samples * 1_000_000_000,
        if rate == 0 {
            1
        } else {
            rate as nat
        },
    )
}

/// When everything has been played once more samples were queued: they play when those before them
/// have, or now. The time is cut at the largest there is.
pub open spec fn busy_after(until: u128, now_ns: u64, samples: nat, rate: u32) -> int {
    let from = if until >= now_ns {
        until as int
    } else {
        now_ns as int
    };
    let to = from + playing_ns(samples, rate);
    if to <= u128::MAX - TX_TAIL_NS {
        to
    } else {
        u128::MAX - TX_TAIL_NS
    }
}

/// When everything that was queued has been played, and whether anything that was captured has
/// been dropped since the device last listened. Times are in nanoseconds.
pub struct TxGate {
    busy_until: u128,
    was_gated: bool,
}

/// What to do with a captured block.
#[derive(Debug, Clone, Copy, PartialEq, Eq, Structural)]
pub enum Capture {
    /// The device sends: drop the block.
    Drop,
    /// Forget what was heard before, then take the block.
    ClearAndTake,
    /// Take the block.
    Take,
}

impl TxGate {
    pub closed spec fn until(&self) -> u128 {
        self.busy_until
    }

    pub closed spec fn dropped(&self) -> bool {
        self.was_gated
    }

    /// The device sends, or the room still sounds.
    pub open spec fn closed_at(&self, now_ns: u64) -> bool {
        now_ns < self.until() + TX_TAIL_NS
    }

    /// Times stay far below what fits.
    pub closed spec fn wf(&self) -> bool {
        self.busy_until <= u128::MAX - TX_TAIL_NS
    }

    pub fn new(now_ns: u64) -> (r: Self)
        ensures
            r.wf(),
            r.until() == now_ns,
            !r.dropped(),
    {
        TxGate { busy_until: now_ns as u128, was_gated: false }
    }

    /// Queues samples: they play when those before them have, or now. The end is cut at the
    /// largest time there is.
    pub fn queue(&mut self, now_ns: u64, samples: usize, rate: u32)
        requires
            old(self).wf(),
        ensures
            final(self).wf(),
            final(self).dropped() == old(self).dropped(),
            final(self).until() == busy_after(old(self).until(), now_ns, samples as nat, rate),
    {
        let now: u128 = now_ns as u128;
        let from: u128 = if self.busy_until >= now {
            self.busy_until
        } else {
            now
        };
        let per: u128 = if rate == 0 {
            1
        } else {
            rate as u128
        };
        let scaled: u128 = samples as u128 * 1_000_000_000;
        let whole: u128 = scaled / per;
        let rest: u128 = scaled % per;
        let dur: u128 = if 2 * rest > per || (2 * rest == per && whole % 2 == 1) {
            whole + 1
        } else {
            whole
        };
        let last: u128 = u128::MAX - TX_TAIL_NS as u128;
        self.busy_until = if dur <= last - from {
            from + dur
        } else {
            last
        };
    }

    /// Whether the device sends, or the room still sounds.
    pub fn active(&self, now_ns: u64) -> (r: bool)
        requires
            self.wf(),
        ensures
            r == self.closed_at(now_ns),
    {
        (now_ns as u128) < self.busy_until + TX_TAIL_NS as u128
    }

    /// What to do with a block that was captured, which holds at least one sample. After a time
    /// of sending, the first block that is taken clears what was heard before.
    pub fn on_captured(&mut self, now_ns: u64) -> (r: Capture)
        requires
            old(self).wf(),
        ensures
            final(self).wf(),
            final(self).until() == old(self).until(),
            final(self).dropped() == old(self).closed_at(now_ns),
            r == (if old(self).closed_at(now_ns) {
                Capture::Drop
            } else if old(self).dropped() {
                Capture::ClearAndTake
            } else {
                Capture::Take
            }),
    {
        if self.active(now_ns) {
            self.was_gated = true;
            Capture::Drop
        } else if self.was_gated {
            self.was_gated = false;
            Capture::ClearAndTake
        } else {
            Capture::Take
        }
    }
}

/// Nothing that is captured while queued samples play is taken: from when they were queued until
/// the last of them has played and the tail is over, every block is dropped, however many more are
/// queued meanwhile.
pub proof fn law_never_hears_itself(
    until: u128,
    queued_ns: u64,
    samples: nat,
    rate: u32,
    gate: TxGate,
    now_ns: u64,
)
    requires
        busy_after(until, queued_ns, samples, rate) <= gate.until(),
        now_ns < queued_ns + playing_ns(samples, rate) + TX_TAIL_NS,
    ensures
        gate.closed_at(now_ns),
{
}

/// Queueing more samples never lets a device listen earlier.
pub proof fn law_queueing_only_delays(until: u128, now_ns: u64, samples: nat, rate: u32)
    requires
        until <= u128::MAX - TX_TAIL_NS,
    ensures
        until <= busy_after(until, now_ns, samples, rate),
{
}

/// A rounded fraction is no further from the fraction than one half, and even where two whole
/// numbers are equally near.
pub proof fn law_rounding(num: nat, den: nat)
    requires
        den > 0,
    ensures
        -(den as int) <= 2 * (rounded(num, den) * den - num) <= den,
        2 * (rounded(num, den) * den - num) == den || 2 * (rounded(num, den) * den - num) == -(
        den as int) ==> rounded(num, den) % 2 == 0,
{
    vstd::arithmetic::div_mod::lemma_fundamental_div_mod(num as int, den as int);
    let whole = num / den;
    assert((whole + 1) * den == whole * den + den) by (nonlinear_arith);
    assert(whole * den == den * whole) by (nonlinear_arith);
    assert(0 <= num % den < den);
}

/// Samples play for their number over the rate: the time in nanoseconds is off by no more than one
/// half. A rate of zero counts as one.
pub proof fn law_playing_time(samples: nat, rate: u32)
    ensures
        rate > 0 ==> -(rate as int) <= 2 * (playing_ns(samples, rate) * rate - samples
            * 1_000_000_000) <= rate,
        rate <= 1 ==> playing_ns(samples, rate) == samples * 1_000_000_000,
{
    if rate > 0 {
        law_rounding(samples * 1_000_000_000, rate as nat);
    }
}

/// Times are cut where the tail behind them would no longer fit, and nowhere before.
pub proof fn law_times_are_cut(until: u128, now_ns: u64, samples: nat, rate: u32)
    ensures
        busy_after(until, now_ns, samples, rate) + 220_000_000 <= u128::MAX,
        busy_after(until, now_ns, samples, rate) + 220_000_000 < u128::MAX ==> busy_after(
            until,
            now_ns,
            samples,
            rate,
        ) == playing_ns(samples, rate) + (if until >= now_ns {
            until as int
        } else {
            now_ns as int
        }),
{
}

/// Samples that are queued while nothing plays play at once, and others when those before them have
/// played.
pub proof fn law_when_samples_play(until: u128, now_ns: u64, samples: nat, rate: u32)
    requires
        until + now_ns + playing_ns(samples, rate) + TX_TAIL_NS <= u128::MAX,
    ensures
        until <= now_ns ==> busy_after(until, now_ns, samples, rate) == now_ns + playing_ns(
            samples,
            rate,
        ),
        until >= now_ns ==> busy_after(until, now_ns, samples, rate) == until + playing_ns(
            samples,
            rate,
        ),
{
}

/// A device listens again 220 milliseconds after the last sample has played, and not before.
pub proof fn law_when_a_device_listens(gate: TxGate, now_ns: u64)
    ensures
        !gate.closed_at(now_ns) <==> now_ns - gate.until() >= 220_000_000,
{
}

} // verus!
