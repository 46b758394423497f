//! The source of pseudo-random numbers for a simulated channel.

use vstd::prelude::*;

verus! {

/// What a state becomes: three shifts, each added without carry.
pub open spec fn shifted(x: u64) -> u64 {
    let a = x ^ (x >> 12u64);
    let b = a ^ (a << 25u64);
    b ^ (b >> 27u64)
}

/// A generator of the kind called xorshift64*. The same seed gives the same numbers everywhere.
#[derive(Debug, Clone)]
pub struct Rng {
    state: u64,
}

impl Rng {
    pub closed spec fn at(&self) -> u64 {
        self.state
    }

    /// The state is never zero, from which nothing but zeros would come.
    pub open spec fn wf(&self) -> bool {
        self.at() != 0
    }

    /// A generator for a seed. Zero stands for one.
    pub fn new(seed: u64) -> (r: Self)
        ensures
            r.wf(),
            r.at() == (if seed == 0 {
                1
            } else {
                seed
            }),
    {
        Rng {
            state: if seed == 0 {
                1
            } else {
                seed
            },
        }
    }

    /// The next number.
    pub fn next_u64(&mut self) -> (r: u64)
        requires
            old(self).wf(),
        ensures
            final(self).wf(),
            final(self).at() == shifted(old(self).at()),
            r == final(self).at().wrapping_mul(0x2545F4914F6CDD1D),
    {
        let mut x: u64 = self.state;
        proof {
            law_states_stay_apart(x, 0);
            assert(shifted(0) == 0) by (bit_vector);
        }
        x = x ^ (x >> 12u64);
        x = x ^ (x << 25u64);
        x = x ^ (x >> 27u64);
        self.state = x;
        x.wrapping_mul(0x2545F4914F6CDD1D)
    }

    /// The upper 24 bits of the next number, of which a fraction of one is made.
    pub fn next_u24(&mut self) -> (r: u32)
        requires
            old(self).wf(),
        ensures
            final(self).wf(),
            final(self).at() == shifted(old(self).at()),
            r == final(self).at().wrapping_mul(0x2545F4914F6CDD1D) >> 40u64,
            r < 0x100_0000,
    {
        let n: u64 = self.next_u64();
        assert(n >> 40u64 < 0x100_0000u64) by (bit_vector);
        (n >> 40u64) as u32
    }
}

/// Two states that differ never become the same, so no state other than zero leads to zero.
pub proof fn law_states_stay_apart(x: u64, y: u64)
    requires
        x != y,
    ensures
        shifted(x) != shifted(y),
{
    assert(x != y ==> x ^ (x >> 12u64) != y ^ (y >> 12u64)) by (bit_vector);
    let a = x ^ (x >> 12u64);
    let c = y ^ (y >> 12u64);
    assert(a != c ==> a ^ (a << 25u64) != c ^ (c << 25u64)) by (bit_vector);
    let b = a ^ (a << 25u64);
    let d = c ^ (c << 25u64);
    assert(b != d ==> b ^ (b >> 27u64) != d ^ (d >> 27u64)) by (bit_vector);
}

/// A state is mixed without carry out of itself, shifted by 12 to the right, 25 and 13 to the left
/// and 27, 39, 2 and 14 to the right, with what falls out at the ends cut on the way.
pub proof fn law_how_a_state_is_mixed(x: u64)
    ensures
        shifted(x) == (x ^ (x >> 12u64) ^ (x << 25u64) ^ ((x >> 12u64) << 25u64)) ^ ((x >> 27u64) ^ (
        x >> 39u64) ^ ((x << 25u64) >> 27u64) ^ (((x >> 12u64) << 25u64) >> 27u64)),
{
    assert(({
        let a = x ^ (x >> 12u64);
        let b = a ^ (a << 25u64);
        b ^ (b >> 27u64)
    }) == (x ^ (x >> 12u64) ^ (x << 25u64) ^ ((x >> 12u64) << 25u64)) ^ ((x >> 27u64) ^ (x
        >> 39u64) ^ ((x << 25u64) >> 27u64) ^ (((x >> 12u64) << 25u64) >> 27u64))) by (bit_vector);
}

} // verus!
