//! A seeded linear-congruential pseudo-random generator. It supplies the
//! bounded indices that the partition primitive uses to pick a pivot; given
//! the same seed and the same sequence of bounds it reproduces the same
//! outputs, so every sort in this crate is deterministic per seed.

use vstd::prelude::*;

verus! {

/// Multiplier of the linear-congruential step.
pub const MULTIPLIER: u64 = 56394237;
/// Increment of the linear-congruential step.
pub const INCREMENT: u64 = 34642349;
/// Modulus of the linear-congruential step; exceeds any practical sequence
/// length, though freedom from short cycles is not proven here.
pub const MODULUS: u64 = 9384434935;
/// Seed of the generator that the convenience entry points construct.
pub const DEFAULT_SEED: u64 = 34052;

/// The successor of a generator state: `(curr * MULTIPLIER + INCREMENT) % MODULUS`.
pub open spec fn lcg_next(curr: u64) -> u64 {
    (((curr as int) * (MULTIPLIER as int) + (INCREMENT as int)) % (MODULUS as int)) as u64
}

/// The bounded value drawn from state `curr` with bound `max`.
pub open spec fn lcg_draw(curr: u64, max: u64) -> u64 {
    (lcg_next(curr) as int % (max as int)) as u64
}

/// The sequence of draws that a generator in state `seed` produces when
/// driven with the given sequence of bounds, each bound positive.
pub open spec fn lcg_outputs(seed: u64, bounds: Seq<u64>) -> Seq<u64>
    decreases bounds.len(),
{
    if bounds.len() == 0 {
        Seq::empty()
    } else {
        seq![lcg_draw(seed, bounds[0])] + lcg_outputs(lcg_next(seed), bounds.drop_first())
    }
}

/// Determinism of the generator: two generators constructed with the same
/// seed and driven with the same sequence of bounds produce identical
/// output sequences. Each draw of [`RandGen::gen`] is pinned to
/// [`lcg_draw`] of the state, and the successor state to [`lcg_next`], so
/// a generator's whole output stream is the function of its seed and its
/// bounds stated here.
pub proof fn lemma_prng_deterministic(seed1: u64, seed2: u64, bounds: Seq<u64>)
    requires
        seed1 == seed2,
    ensures
        lcg_outputs(seed1, bounds) == lcg_outputs(seed2, bounds),
{
}

/// A linear-congruential pseudo-random generator.
pub struct RandGen {
    curr: u64,
    mul: u64,
    inc: u64,
    modulo: u64,
}

impl RandGen {
    /// The multiplier, increment and modulus are the fixed constants.
    pub closed spec fn wf(self) -> bool {
        &&& self.mul == MULTIPLIER
        &&& self.inc == INCREMENT
        &&& self.modulo == MODULUS
    }

    /// The current state of the generator.
    pub closed spec fn state(self) -> u64 {
        self.curr
    }

    /// A generator seeded with `curr`.
    pub fn new(curr: u64) -> (r: Self)
        ensures
            r.wf(),
            r.state() == curr,
    {
        RandGen { curr, mul: MULTIPLIER, inc: INCREMENT, modulo: MODULUS }
    }

    /// Draws the next value in `[0, max)`: the state advances by one
    /// linear-congruential step and the draw is the new state modulo `max`.
    pub fn gen(&mut self, max: u64) -> (r: u64)
        requires
            old(self).wf(),
            max > 0,
        ensures
            final(self).wf(),
            final(self).state() == lcg_next(old(self).state()),
            r == lcg_draw(old(self).state(), max),
            r < max,
    {
        proof {
            assert((self.curr as int) * (MULTIPLIER as int) + (INCREMENT as int)
                < 0x1_0000_0000_0000_0000_0000_0000) by (nonlinear_arith)
                requires
                    self.curr <= u64::MAX,
            ;
        }
        let next = ((self.curr as u128) * (self.mul as u128) + (self.inc as u128))
            % (self.modulo as u128);
        self.curr = next as u64;
        self.curr % max
    }
}

} // verus!
