//! The deterministic generator behind the initial layout positions, and the
//! fixed layout parameters.

use vstd::prelude::*;
use vstd::wrapping::u64_specs::{wrapping_add, wrapping_mul};

verus! {

/// The default layout seed.
pub const DEFAULT_SEED: u64 = 20_260_917;

/// The default number of layout iterations.
pub const DEFAULT_ITERATIONS: usize = 300;

/// splitmix64: a deterministic pseudo-random generator.
pub struct SplitMix64(u64);

/// The state after one step.
pub open spec fn splitmix_step(s: u64) -> u64 {
    wrapping_add(s, 0x9E37_79B9_7F4A_7C15)
}

/// The output drawn from a state (after its step).
pub open spec fn splitmix_mix(s: u64) -> u64 {
    let z1 = wrapping_mul(s ^ (s >> 30u64), 0xBF58_476D_1CE4_E5B9);
    let z2 = wrapping_mul(z1 ^ (z1 >> 27u64), 0x94D0_49BB_1331_11EB);
    z2 ^ (z2 >> 31u64)
}

impl SplitMix64 {
    /// The generator's state.
    pub closed spec fn state(&self) -> u64 {
        self.0
    }

    pub fn new(seed: u64) -> (r: Self)
        ensures
            r.state() == seed,
    {
        SplitMix64(seed)
    }

    /// Advances the state and returns the next output.
    pub fn next_u64(&mut self) -> (r: u64)
        ensures
            final(self).state() == splitmix_step(old(self).state()),
            r == splitmix_mix(final(self).state()),
    {
        self.0 = self.0.wrapping_add(0x9E37_79B9_7F4A_7C15);
        let mut z = self.0;
        z = (z ^ (z >> 30)).wrapping_mul(0xBF58_476D_1CE4_E5B9);
        z = (z ^ (z >> 27)).wrapping_mul(0x94D0_49BB_1331_11EB);
        z ^ (z >> 31)
    }

    /// The top 24 bits of the next output: the numerator, over `2^24`, of a
    /// uniform value in `[0, 1)`.
    pub fn next_u24(&mut self) -> (r: u32)
        ensures
            final(self).state() == splitmix_step(old(self).state()),
            r == splitmix_mix(final(self).state()) >> 40u64,
            r < 0x100_0000,
    {
        let x = self.next_u64();
        let top = x >> 40;
        assert(x >> 40u64 < 0x100_0000) by (bit_vector);
        top as u32
    }
}

} // verus!
