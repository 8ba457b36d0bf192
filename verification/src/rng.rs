//! The random number generator used by every sampler: `rand`'s `StdRng`.
//!
//! Verus sees nothing of the generator's state; each draw below is stated
//! only by what holds of every outcome.
use rand::rngs::StdRng;
use rand::{Rng, SeedableRng};
use vstd::prelude::*;

verus! {

#[verifier::external_type_specification]
#[verifier::external_body]
pub struct ExStdRng(StdRng);

/// Calls `rand::SeedableRng::seed_from_u64`: a generator whose stream is
/// determined by `seed`. Nothing is claimed about the stream itself.
#[verifier::external_body]
pub(crate) fn rng_from_seed(seed: u64) -> StdRng {
    StdRng::seed_from_u64(seed)
}

/// Calls `rand::Rng::random_range(0..bound)`: rand documents a uniformly
/// drawn value of the half-open range and a panic on an empty range, so the
/// contract claims only that the draw lies below `bound`.
#[verifier::external_body]
pub(crate) fn random_below(rng: &mut StdRng, bound: usize) -> (r: usize)
    requires
        bound > 0,
    ensures
        r < bound,
{
    rng.random_range(0..bound)
}

/// Calls `rand::Rng::random::<u64>()`: any `u64` may come back, so nothing
/// is claimed of the result.
#[verifier::external_body]
pub(crate) fn random_u64(rng: &mut StdRng) -> u64 {
    rng.random::<u64>()
}

} // verus!
