//! The random source of the random branching heuristic.

use rand::Rng;
use rand::SeedableRng;
use rand_pcg::Pcg64;
use vstd::prelude::*;

verus! {

/// The generator of `rand_pcg`, known to the verifier as an opaque value.
#[verifier::external_type_specification]
#[verifier::external_body]
pub struct ExLcg128Xsl64(rand_pcg::Lcg128Xsl64);

/// Calls `SeedableRng::seed_from_u64` of `rand` for the generator of
/// `rand_pcg`. Nothing is claimed of the generator that comes back.
#[verifier::external_body]
pub(crate) fn seeded(seed: u64) -> Pcg64 {
    Pcg64::seed_from_u64(seed)
}

/// Calls `Rng::random_range` of `rand` on the range from zero up to, but
/// not including, `len`. The range must not be empty, as the call panics
/// on an empty one; the claim is that the number drawn lies in the range.
#[verifier::external_body]
pub(crate) fn random_index(rng: &mut Pcg64, len: usize) -> (r: usize)
    requires
        len > 0,
    ensures
        r < len,
{
    rng.random_range(0..len)
}

/// Calls `Rng::random_ratio` of `rand`: true with a chance of
/// `numerator` in `denominator`. The denominator must not be zero nor
/// less than the numerator, as the call panics on either. Nothing is
/// claimed of the truth value that comes back.
#[verifier::external_body]
pub(crate) fn random_ratio(rng: &mut Pcg64, numerator: u32, denominator: u32) -> bool
    requires
        denominator > 0,
        numerator <= denominator,
{
    rng.random_ratio(numerator, denominator)
}

} // verus!
