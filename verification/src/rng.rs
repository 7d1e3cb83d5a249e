//! Randomness for move sampling: a seedable pseudo-random generator threaded
//! explicitly through expansion and rollout, so runs are reproducible.

use vstd::prelude::*;

verus! {

#[verifier::external_type_specification]
#[verifier::external_body]
pub struct ExStdRng(rand::rngs::StdRng);

/// Relies on rand's `SeedableRng::seed_from_u64` for `StdRng`: builds a
/// generator from a 64-bit seed. Nothing is assumed of the stream it yields.
#[verifier::external_body]
pub fn rng_from_seed(seed: u64) -> rand::rngs::StdRng {
    rand::SeedableRng::seed_from_u64(seed)
}

/// Relies on rand's `RngExt::random_range` over `0..n`: the sample lies in
/// the half-open range, so the result is below `n`. Which value comes back
/// is not assumed: every caller must hold for any outcome.
#[verifier::external_body]
pub fn rand_below(rng: &mut rand::rngs::StdRng, n: usize) -> (r: usize)
    requires
        n > 0,
    ensures
        r < n,
{
    rand::RngExt::random_range(rng, 0..n)
}

} // verus!
