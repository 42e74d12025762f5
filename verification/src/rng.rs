//! Injectable randomness: a system-backed source for real runs and a
//! deterministic seeded source for reproducible runs and tests.

use vstd::prelude::*;

use rand::Rng;

verus! {

/// A source of bounded random numbers. The search algorithms take any
/// implementation, so runs can be reproduced with a seeded source.
pub trait RandomSource {
    /// Draw a number in `[0, n)`.
    fn next_below(&mut self, n: usize) -> (r: usize)
        requires
            n >= 1,
        ensures
            r < n,
    ;
}

/// Relies on `rand::thread_rng` and `rand::Rng::gen_range`:
/// returns a number drawn from `[0, n)`.
#[verifier::external_body]
fn random_below(n: usize) -> (r: usize)
    requires
        n >= 1,
    ensures
        r < n,
{
    rand::thread_rng().gen_range(0..n)
}

/// Randomness from the process-local generator of the `rand` crate.
pub struct SystemRandom {}

impl SystemRandom {
    pub fn new() -> Self {
        SystemRandom {  }
    }
}

impl RandomSource for SystemRandom {
    fn next_below(&mut self, n: usize) -> (r: usize) {
        random_below(n)
    }
}

/// A deterministic linear congruential generator, for seeded, reproducible runs.
pub struct Lcg {
    pub state: u64,
}

impl Lcg {
    pub fn new(seed: u64) -> (r: Self)
        ensures
            r.state == seed,
    {
        Lcg { state: seed }
    }
}

impl RandomSource for Lcg {
    fn next_below(&mut self, n: usize) -> (r: usize) {
        self.state = self.state.wrapping_mul(6364136223846793005u64).wrapping_add(
            1442695040888963407u64,
        );
        let x: u64 = self.state >> 33;
        let m: u64 = x % (n as u64);
        assert(m < n as u64);
        m as usize
    }
}

} // verus!
