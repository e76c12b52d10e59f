//! SplitMix64, fixed algorithm v1. The whole state is one 64-bit word.
use vstd::prelude::*;

verus! {

/// The increment of the state at every draw.
pub const GOLDEN_GAMMA: u64 = 0x9e3779b97f4a7c15;

/// The output function of SplitMix64 on a state.
pub open spec fn spec_mix(s: u64) -> u64 {
    let z1 = (s ^ (s >> 30u64)).wrapping_mul(0xbf58476d1ce4e5b9u64);
    let z2 = (z1 ^ (z1 >> 27u64)).wrapping_mul(0x94d049bb133111ebu64);
    z2 ^ (z2 >> 31u64)
}

/// A deterministic pseudo-random generator.
#[derive(Clone, Debug, PartialEq, Eq)]
pub struct Rng {
    pub state: u64,
}

impl Rng {
    /// A generator whose state is the seed.
    pub fn new(seed: u64) -> (r: Rng)
        ensures
            r.state == seed,
    {
        Rng { state: seed }
    }

    /// Advances the state by the golden gamma and returns the mixed state.
    pub fn next_u64(&mut self) -> (r: u64)
        ensures
            final(self).state == old(self).state.wrapping_add(GOLDEN_GAMMA),
            r == spec_mix(final(self).state),
    {
        self.state = self.state.wrapping_add(GOLDEN_GAMMA);
        let s = self.state;
        let z1 = (s ^ (s >> 30u64)).wrapping_mul(0xbf58476d1ce4e5b9u64);
        let z2 = (z1 ^ (z1 >> 27u64)).wrapping_mul(0x94d049bb133111ebu64);
        z2 ^ (z2 >> 31u64)
    }

    /// A draw reduced to `0..n`; `n` must be positive.
    pub fn index(&mut self, n: usize) -> (r: usize)
        requires
            n > 0,
        ensures
            final(self).state == old(self).state.wrapping_add(GOLDEN_GAMMA),
            r as int == spec_mix(final(self).state) as int % n as int,
            r < n,
    {
        let x = self.next_u64();
        (x % (n as u64)) as usize
    }
}

} // verus!
