//! Deterministic pseudo-random generator (SplitMix64).
//!
//! A fixed algorithm without dependencies: a given seed always yields the same
//! sequence. This is the cornerstone of the simulation's reproducibility.

use vstd::prelude::*;

verus! {

/// Increment added to the state at each draw (the golden-ratio gamma).
pub const GAMMA: u64 = 0x9E37_79B9_7F4A_7C15;

/// The SplitMix64 output finaliser applied to an advanced state.
pub open spec fn mix(z: u64) -> u64 {
    let a = vstd::wrapping::u64_specs::wrapping_mul(z ^ (z >> 30u64), 0xBF58_476D_1CE4_E5B9u64);
    let b = vstd::wrapping::u64_specs::wrapping_mul(a ^ (a >> 27u64), 0x94D0_49BB_1331_11EBu64);
    b ^ (b >> 31u64)
}

/// The state that follows `state` after one draw.
pub open spec fn advance(state: u64) -> u64 {
    vstd::wrapping::u64_specs::wrapping_add(state, GAMMA)
}

/// The value drawn from `state` (computed on the advanced state).
pub open spec fn draw(state: u64) -> u64 {
    mix(advance(state))
}

/// Executable SplitMix64 finaliser.
pub fn splitmix(z: u64) -> (r: u64)
    ensures
        r == mix(z),
{
    let a = (z ^ (z >> 30u64)).wrapping_mul(0xBF58_476D_1CE4_E5B9u64);
    let b = (a ^ (a >> 27u64)).wrapping_mul(0x94D0_49BB_1331_11EBu64);
    b ^ (b >> 31u64)
}

/// Deterministic pseudo-random generator.
#[derive(Debug, Clone)]
pub struct Rng {
    state: u64,
}

impl Rng {
    /// The internal state (the position in the sequence).
    pub closed spec fn state(&self) -> u64 {
        self.state
    }

    /// Builds a generator from a seed.
    pub fn new(seed: u64) -> (r: Self)
        ensures
            r.state() == seed,
    {
        Self { state: seed }
    }

    /// Draws the next `u64`. Deterministic for a given seed.
    pub fn next_u64(&mut self) -> (r: u64)
        ensures
            final(self).state() == advance(old(self).state()),
            r == draw(old(self).state()),
    {
        self.state = self.state.wrapping_add(GAMMA);
        splitmix(self.state)
    }
}

/// Two generators in the same state produce the same value and stay in step.
pub proof fn lemma_same_state_same_draw(a: Rng, b: Rng)
    requires
        a.state() == b.state(),
    ensures
        draw(a.state()) == draw(b.state()),
        advance(a.state()) == advance(b.state()),
{
}

} // verus!
