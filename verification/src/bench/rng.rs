//! A tiny seeded generator (splitmix64) for reproducible corpora.

use vstd::prelude::*;

verus! {

/// Splitmix64 generator state.
#[derive(Debug, Clone, Copy)]
pub struct Rng {
    state: u64,
}

/// The splitmix64 output for an (already advanced) state.
pub open spec fn splitmix_mix(s: u64) -> u64 {
    let z1 = ((s ^ (s >> 30u64)) as int * 0xBF58_476D_1CE4_E5B9int) % 0x1_0000_0000_0000_0000int;
    let z1 = z1 as u64;
    let z2 = ((z1 ^ (z1 >> 27u64)) as int * 0x94D0_49BB_1331_11EBint) % 0x1_0000_0000_0000_0000int;
    let z2 = z2 as u64;
    z2 ^ (z2 >> 31u64)
}

/// The state after one step.
pub open spec fn splitmix_advance(s: u64) -> u64 {
    ((s as int + 0x9E37_79B9_7F4A_7C15int) % 0x1_0000_0000_0000_0000int) as u64
}

impl Rng {
    /// The current state.
    pub closed spec fn state(self) -> u64 {
        self.state
    }

    pub fn new(seed: u64) -> (r: Rng)
        ensures
            r.state() == seed,
    {
        Rng { state: seed }
    }

    /// Advance the state by the golden-ratio increment and return the mixed
    /// value of the new state.
    pub fn next_u64(&mut self) -> (v: u64)
        ensures
            final(self).state() == splitmix_advance(old(self).state()),
            v == splitmix_mix(final(self).state()),
    {
        self.state = self.state.wrapping_add(0x9E37_79B9_7F4A_7C15);
        let mut z = self.state;
        z = (z ^ (z >> 30)).wrapping_mul(0xBF58_476D_1CE4_E5B9);
        z = (z ^ (z >> 27)).wrapping_mul(0x94D0_49BB_1331_11EB);
        z ^ (z >> 31)
    }
}

} // verus!
