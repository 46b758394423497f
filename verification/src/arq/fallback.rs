//! The choice of the mode by how the link does.

use vstd::prelude::*;
use crate::framing::PhyMode;

verus! {

/// Steps down to a sturdier mode after a series of failures and up again after a longer series of
/// successes, so that it does not swing.
pub struct AutoFallback {
    ladder: Vec<PhyMode>,
    level: usize,
    consecutive_failures: u32,
    consecutive_successes: u32,
    fail_threshold: u32,
    recover_threshold: u32,
}

/// The modes from the fastest to the sturdiest.
pub open spec fn rungs() -> Seq<PhyMode> {
    seq![PhyMode::Ofdm16Qam, PhyMode::OfdmQpsk, PhyMode::Css]
}

/// A rung, and the failures and successes in a row.
pub struct Standing {
    pub level: int,
    pub failures: int,
    pub successes: int,
}

/// One more, unless that is more than the counter holds.
pub open spec fn count(n: int) -> int {
    if n < u32::MAX {
        n + 1
    } else {
        n
    }
}

/// The standing after a success: five in a row lead one rung up.
pub open spec fn after_success(s: Standing) -> Standing {
    if s.level > 0 && count(s.successes) >= 5 {
        Standing { level: s.level - 1, failures: 0, successes: 0 }
    } else {
        Standing { level: s.level, failures: 0, successes: count(s.successes) }
    }
}

/// The standing after a failure: three in a row lead one rung down.
pub open spec fn after_failure(s: Standing) -> Standing {
    if s.level + 1 < 3 && count(s.failures) >= 3 {
        Standing { level: s.level + 1, failures: 0, successes: 0 }
    } else {
        Standing { level: s.level, failures: count(s.failures), successes: 0 }
    }
}

/// The standing after the mode is forced: one that is not on the ladder changes nothing.
pub open spec fn after_force(s: Standing, mode: PhyMode) -> Standing {
    if rungs().contains(mode) {
        Standing { level: rung_of(mode), failures: 0, successes: 0 }
    } else {
        s
    }
}

/// The rung of a mode that has one.
pub open spec fn rung_of(mode: PhyMode) -> int {
    match mode {
        PhyMode::Ofdm16Qam => 0,
        PhyMode::OfdmQpsk => 1,
        _ => 2,
    }
}

/// A standing that can come about: a rung of the ladder, with no more in a row than lead away
/// from it.
pub open spec fn possible(s: Standing) -> bool {
    &&& 0 <= s.level < 3
    &&& 0 <= s.failures <= u32::MAX
    &&& 0 <= s.successes <= u32::MAX
    &&& s.level < 2 ==> s.failures < 3
    &&& s.level > 0 ==> s.successes < 5
}

/// Three failures in a row leave every rung but the last.
pub proof fn law_three_failures_step_down(s: Standing)
    requires
        possible(s),
    ensures
        s.level < 2 ==> after_failure(after_failure(after_failure(s))).level > s.level,
        s.level == 2 ==> after_failure(after_failure(after_failure(s))).level == 2,
{
}

/// Five successes in a row leave every rung but the first.
pub proof fn law_five_successes_step_up(s: Standing)
    requires
        possible(s),
    ensures
        s.level > 0 ==> after_success(
            after_success(after_success(after_success(after_success(s)))),
        ).level < s.level,
        s.level == 0 ==> after_success(
            after_success(after_success(after_success(after_success(s)))),
        ).level == 0,
{
}

/// A single step never skips a rung, a success never leads down, and a failure never up.
pub proof fn law_one_rung_at_a_time(s: Standing)
    requires
        possible(s),
    ensures
        possible(after_success(s)),
        possible(after_failure(s)),
        s.level - 1 <= after_success(s).level <= s.level,
        s.level <= after_failure(s).level <= s.level + 1,
{
}

impl AutoFallback {
    pub closed spec fn standing(&self) -> Standing {
        Standing {
            level: self.level as int,
            failures: self.consecutive_failures as int,
            successes: self.consecutive_successes as int,
        }
    }

    /// The ladder and the thresholds are those of the protocol, and the standing is possible.
    pub closed spec fn wf(&self) -> bool {
        &&& self.ladder@ == rungs()
        &&& self.fail_threshold == 3
        &&& self.recover_threshold == 5
        &&& possible(self.standing())
    }

    /// A link starts in the sturdiest mode.
    pub fn new() -> (r: Self)
        ensures
            r.wf(),
            r.standing() == (Standing { level: 2, failures: 0, successes: 0 }),
    {
        let ladder: Vec<PhyMode> = vec![PhyMode::Ofdm16Qam, PhyMode::OfdmQpsk, PhyMode::Css];
        assert(ladder@ =~= rungs());
        AutoFallback {
            ladder,
            level: 2,
            consecutive_failures: 0,
            consecutive_successes: 0,
            fail_threshold: 3,
            recover_threshold: 5,
        }
    }

    pub fn current(&self) -> (r: PhyMode)
        requires
            self.wf(),
        ensures
            r == rungs()[self.standing().level],
    {
        self.ladder[self.level]
    }

    /// Counts a success. Returns whether the mode has changed.
    pub fn on_success(&mut self) -> (r: bool)
        requires
            old(self).wf(),
        ensures
            final(self).wf(),
            final(self).standing() == after_success(old(self).standing()),
            r == (final(self).standing().level != old(self).standing().level),
    {
        self.consecutive_failures = 0;
        self.consecutive_successes = self.consecutive_successes.saturating_add(1);
        if self.level > 0 && self.consecutive_successes >= self.recover_threshold {
            self.level = self.level - 1;
            self.consecutive_successes = 0;
            return true;
        }
        false
    }

    /// Counts a failure. Returns whether the mode has changed.
    pub fn on_failure(&mut self) -> (r: bool)
        requires
            old(self).wf(),
        ensures
            final(self).wf(),
            final(self).standing() == after_failure(old(self).standing()),
            r == (final(self).standing().level != old(self).standing().level),
    {
        self.consecutive_successes = 0;
        self.consecutive_failures = self.consecutive_failures.saturating_add(1);
        if self.level + 1 < self.ladder.len() && self.consecutive_failures >= self.fail_threshold {
            self.level = self.level + 1;
            self.consecutive_failures = 0;
            return true;
        }
        false
    }

    /// Goes to the rung of a mode and starts counting anew.
    pub fn force(&mut self, mode: PhyMode)
        requires
            old(self).wf(),
        ensures
            final(self).wf(),
            final(self).standing() == after_force(old(self).standing(), mode),
    {
        let mut idx: usize = 0;
        while idx < self.ladder.len()
            invariant
                idx <= self.ladder@.len(),
                self.ladder@ == rungs(),
                *self == *old(self),
                forall|j: int| 0 <= j < idx ==> self.ladder@[j] != mode,
                old(self).wf(),
            decreases self.ladder@.len() - idx,
        {
            if self.ladder[idx] == mode {
                assert(rungs()[idx as int] == mode);
                assert(rungs().contains(mode));
                self.level = idx;
                self.consecutive_failures = 0;
                self.consecutive_successes = 0;
                return ;
            }
            idx += 1;
        }
    }
}

impl Default for AutoFallback {
    fn default() -> (r: Self)
        ensures
            r.wf(),
            r.standing() == (Standing { level: 2, failures: 0, successes: 0 }),
    {
        Self::new()
    }
}

/// The standing after some failures in a row.
pub open spec fn after_failures(s: Standing, n: nat) -> Standing
    decreases n,
{
    if n == 0 {
        s
    } else {
        after_failure(after_failures(s, (n - 1) as nat))
    }
}

/// The standing after some successes in a row.
pub open spec fn after_successes(s: Standing, n: nat) -> Standing
    decreases n,
{
    if n == 0 {
        s
    } else {
        after_success(after_successes(s, (n - 1) as nat))
    }
}

/// From where no failure is counted, one or two failures keep the rung, and the third leads exactly
/// one down, where the counts start anew. On the last rung failures change nothing but the count.
pub proof fn law_the_third_failure_counts(s: Standing)
    requires
        possible(s),
        s.failures == 0,
    ensures
        after_failures(s, 1).level == s.level,
        after_failures(s, 2).level == s.level,
        s.level < 2 ==> after_failures(s, 3) == (Standing {
            level: s.level + 1,
            failures: 0,
            successes: 0,
        }),
        s.level == 2 ==> after_failures(s, 3).level == 2,
{
    reveal_with_fuel(after_failures, 4);
}

/// From where no success is counted, up to four successes keep the rung, and the fifth leads exactly
/// one up, where the counts start anew. On the first rung successes change nothing but the count.
pub proof fn law_the_fifth_success_counts(s: Standing)
    requires
        possible(s),
        s.successes == 0,
    ensures
        after_successes(s, 1).level == s.level,
        after_successes(s, 2).level == s.level,
        after_successes(s, 3).level == s.level,
        after_successes(s, 4).level == s.level,
        s.level > 0 ==> after_successes(s, 5) == (Standing {
            level: s.level - 1,
            failures: 0,
            successes: 0,
        }),
        s.level == 0 ==> after_successes(s, 5).level == 0,
{
    reveal_with_fuel(after_successes, 6);
}

/// A success breaks a series of failures, and a failure one of successes.
pub proof fn law_series_are_broken(s: Standing)
    requires
        possible(s),
    ensures
        after_success(s).failures == 0,
        after_failure(s).successes == 0,
        after_success(s).level == s.level && s.successes < u32::MAX ==> after_success(s).successes
            == s.successes + 1,
        after_failure(s).level == s.level && s.failures < u32::MAX ==> after_failure(s).failures
            == s.failures + 1,
{
}

/// The ladder leads from sixteen points over four points to chirps, and a mode that is forced is
/// where it stands then, with no counts; tones are not on it.
pub proof fn law_forcing_moves_the_ladder(s: Standing)
    ensures
        rungs().len() == 3,
        rungs()[0] == PhyMode::Ofdm16Qam,
        rungs()[1] == PhyMode::OfdmQpsk,
        rungs()[2] == PhyMode::Css,
        forall|mode: PhyMode|
            mode != PhyMode::Mfsk ==> {
                let t = #[trigger] after_force(s, mode);
                0 <= t.level < 3 && rungs()[t.level] == mode && t.failures == 0 && t.successes == 0
            },
        after_force(s, PhyMode::Mfsk) == s,
{
    assert(rungs()[0] == PhyMode::Ofdm16Qam);
    assert(rungs()[1] == PhyMode::OfdmQpsk);
    assert(rungs()[2] == PhyMode::Css);
    assert(rungs().contains(PhyMode::Ofdm16Qam));
    assert(rungs().contains(PhyMode::OfdmQpsk));
    assert(rungs().contains(PhyMode::Css));
    assert(!rungs().contains(PhyMode::Mfsk));
}

/// A counter goes up by one and stays at the largest number it holds.
pub proof fn law_counters_stop(n: int)
    requires
        0 <= n <= 0xFFFF_FFFF,
    ensures
        n < 0xFFFF_FFFF ==> count(n) == n + 1,
        n == 0xFFFF_FFFF ==> count(n) == n,
{
}

} // verus!
