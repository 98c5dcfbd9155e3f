//! The randomness source used by every mutation and split-point choice.
//!
//! Mutation operators take the source as an explicit parameter, so a caller
//! can seed it and reproduce a run.  Nothing is assumed about the drawn
//! values beyond their range: every contract downstream holds of every
//! outcome.

use vstd::prelude::*;

verus! {

#[verifier::external_type_specification]
#[verifier::external_body]
pub struct ExStdRng(rand::rngs::StdRng);

/// A seedable source of uniform draws.
pub struct RandomSource {
    rng: rand::rngs::StdRng,
}

impl RandomSource {
    /// Relies on rand's `SeedableRng::seed_from_u64` to build a `StdRng`
    /// from a 64-bit seed.
    #[verifier::external_body]
    pub fn from_seed(seed: u64) -> RandomSource {
        RandomSource { rng: <rand::rngs::StdRng as rand::SeedableRng>::seed_from_u64(seed) }
    }

    /// Relies on rand's `RngExt::random_range` over `0..n`: the draw lies
    /// below `n`.  The range must not be empty, since `random_range` panics
    /// on an empty range.
    #[verifier::external_body]
    pub fn below(&mut self, n: usize) -> (r: usize)
        requires
            n >= 1,
        ensures
            r < n,
    {
        rand::RngExt::random_range(&mut self.rng, 0..n)
    }
}

} // verus!
