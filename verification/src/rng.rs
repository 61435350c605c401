//! A deterministic, seedable random source.
//!
//! The search engine draws all its randomness from this generator, and
//! takes it as explicit state rather than from a process-global source:
//! two runs from the same seed draw the same stream, which makes search
//! results reproducible.

use vstd::prelude::*;
use vstd::wrapping::u64_specs;

verus! {

/// The state step of the generator: add the golden-ratio increment.
pub open spec fn mix_state(state: u64) -> u64 {
    u64_specs::wrapping_add(state, 0x9E3779B97F4A7C15u64)
}

/// The output word derived from a state by two xor-multiply rounds.
pub open spec fn mix_output(s: u64) -> u64 {
    let z1 = u64_specs::wrapping_mul(s ^ (s >> 30u64), 0xBF58476D1CE4E5B9u64);
    let z2 = u64_specs::wrapping_mul(z1 ^ (z1 >> 27u64), 0x94D049BB133111EBu64);
    z2 ^ (z2 >> 31u64)
}

/// A splitmix-style 64-bit generator with fully specified behaviour:
/// every draw is a function of the seed alone.
pub struct SplitMix64 {
    pub state: u64,
}

impl SplitMix64 {
    pub fn new(seed: u64) -> (res: SplitMix64)
        ensures
            res.state == seed,
    {
        SplitMix64 { state: seed }
    }

    /// The next 64-bit word of the stream.
    pub fn next_u64(&mut self) -> (res: u64)
        ensures
            final(self).state == mix_state(old(self).state),
            res == mix_output(mix_state(old(self).state)),
    {
        self.state = self.state.wrapping_add(0x9E3779B97F4A7C15);
        let z0 = self.state;
        let z1 = (z0 ^ (z0 >> 30u64)).wrapping_mul(0xBF58476D1CE4E5B9);
        let z2 = (z1 ^ (z1 >> 27u64)).wrapping_mul(0x94D049BB133111EB);
        z2 ^ (z2 >> 31u64)
    }

    /// The next draw reduced below `max`.
    pub fn below(&mut self, max: usize) -> (res: usize)
        requires
            max > 0,
        ensures
            res < max,
            final(self).state == mix_state(old(self).state),
            res as int == mix_output(mix_state(old(self).state)) as int % (max as int),
    {
        let w = self.next_u64();
        let idx = w % (max as u64);
        idx as usize
    }
}

} // verus!
