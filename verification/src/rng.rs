use vstd::prelude::*;

verus! {

/// Deterministic pseudo-random generator (splitmix64). A challenge is a
/// pure function of the catalog, the counts and the generator's state, so
/// a fixed seed reproduces a challenge exactly; production callers seed
/// from the process random source instead.
pub struct CaptchaRng {
    pub state: u64,
}

/// The state after one step of the generator.
pub open spec fn spec_step(s: u64) -> u64 {
    s.wrapping_add(0x9E3779B97F4A7C15u64)
}

/// The output mixed out of a stepped state.
pub open spec fn spec_mix(z: u64) -> u64 {
    let z1 = (z ^ (z >> 30u64)).wrapping_mul(0xBF58476D1CE4E5B9u64);
    let z2 = (z1 ^ (z1 >> 27u64)).wrapping_mul(0x94D049BB133111EBu64);
    z2 ^ (z2 >> 31u64)
}

/// Relies on rand::random: one draw from the process random source;
/// nothing is promised of the value.
#[verifier::external_body]
fn entropy_seed() -> u64 {
    rand::random::<u64>()
}

impl CaptchaRng {
    /// A generator that will reproduce the same draws for the same seed.
    pub fn from_seed(seed: u64) -> (r: CaptchaRng)
        ensures
            r.state == seed,
    {
        CaptchaRng { state: seed }
    }

    /// A generator seeded from the process random source.
    pub fn from_entropy() -> CaptchaRng {
        CaptchaRng { state: entropy_seed() }
    }

    /// The next raw draw.
    pub fn next_u64(&mut self) -> (r: u64)
        ensures
            final(self).state == spec_step(old(self).state),
            r == spec_mix(spec_step(old(self).state)),
    {
        self.state = self.state.wrapping_add(0x9E3779B97F4A7C15u64);
        let z = self.state;
        let z1 = (z ^ (z >> 30u64)).wrapping_mul(0xBF58476D1CE4E5B9u64);
        let z2 = (z1 ^ (z1 >> 27u64)).wrapping_mul(0x94D049BB133111EBu64);
        z2 ^ (z2 >> 31u64)
    }

    /// A draw reduced below `n`.
    pub fn below(&mut self, n: u64) -> (r: u64)
        requires
            n >= 1,
        ensures
            final(self).state == spec_step(old(self).state),
            r == spec_mix(spec_step(old(self).state)) % n,
            r < n,
    {
        let v = self.next_u64();
        v % n
    }
}

} // verus!
