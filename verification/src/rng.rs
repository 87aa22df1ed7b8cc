//! The seedable uniform random source that the seeding strategies draw from.
//! Randomness is threaded through explicitly so that runs are reproducible.

use vstd::prelude::*;
use rand::RngExt;
use rand::SeedableRng;

verus! {

/// The standard random number generator of the `rand` crate.
#[verifier::external_type_specification]
#[verifier::external_body]
pub struct ExStdRng(rand::rngs::StdRng);

/// An explicitly seeded uniform random source. It is the only
/// nondeterministic input of the seeding strategies.
pub struct RandomSource {
    inner: rand::rngs::StdRng,
}

impl RandomSource {
    /// Builds a random source whose state is derived from `seed` alone.
    /// Relies on rand's `SeedableRng::seed_from_u64`, which constructs a
    /// generator from a word-sized seed and never fails.
    #[verifier::external_body]
    pub fn from_seed(seed: u64) -> RandomSource {
        RandomSource { inner: rand::rngs::StdRng::seed_from_u64(seed) }
    }

    /// Draws a value uniformly from `0..n`.
    /// Relies on rand's `RngExt::random_range`, which returns a sample of the
    /// given range and panics only when the range is empty.
    #[verifier::external_body]
    pub fn next_below(&mut self, n: u128) -> (r: u128)
        requires
            n >= 1,
        ensures
            r < n,
    {
        self.inner.random_range(0..n)
    }
}

} // verus!
