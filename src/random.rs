//! The seeded random stream that drives puzzle generation.
use rand::rngs::StdRng;
use rand::{Rng, SeedableRng};
use vstd::prelude::*;

verus! {

#[verifier::external_type_specification]
#[verifier::external_body]
pub struct ExStdRng(StdRng);

/// Relies on rand's `SeedableRng::seed_from_u64` for `StdRng`: a generator
/// whose whole stream is fixed by `seed`.
#[verifier::external_body]
pub(crate) fn seeded_rng(seed: u64) -> StdRng {
    StdRng::seed_from_u64(seed)
}

/// Relies on rand's `rand::rng` and `SeedableRng::from_rng`: a generator
/// seeded from the thread's entropy source.
#[verifier::external_body]
pub(crate) fn entropy_rng() -> StdRng {
    let mut source = rand::rng();
    StdRng::from_rng(&mut source)
}

/// Relies on rand's `Rng::random_range`: a value in `low..high`. It panics
/// on an empty range, which `requires` leaves out.
#[verifier::external_body]
pub(crate) fn random_below(rng: &mut StdRng, low: u32, high: u32) -> (r: u32)
    requires
        low < high,
    ensures
        low <= r < high,
{
    rng.random_range(low..high)
}

/// Relies on rand's `Rng::random_ratio`: true with a chance of
/// `numerator / denominator`, always when the two are equal and never when
/// `numerator` is zero. It panics when `denominator` is zero or smaller than
/// `numerator`, which `requires` leaves out.
#[verifier::external_body]
pub(crate) fn random_ratio(rng: &mut StdRng, numerator: u32, denominator: u32) -> (r: bool)
    requires
        0 < denominator,
        numerator <= denominator,
    ensures
        numerator == denominator ==> r,
        numerator == 0 ==> !r,
{
    rng.random_ratio(numerator, denominator)
}

} // verus!
