//! The injectable random source of the generator: a seedable pseudo-random
//! generator from the `rand` crate, behind trusted wrappers. Nothing is
//! promised of the drawn values beyond their range, so every caller is
//! verified for every outcome of a draw.

use vstd::prelude::*;
use rand::Rng;
use rand::SeedableRng;

verus! {

#[verifier::external_type_specification]
#[verifier::external_body]
pub struct ExStdRng(rand::rngs::StdRng);

/// Relies on rand's SeedableRng::seed_from_u64: builds a generator whose
/// stream of draws is a function of the seed alone.
#[verifier::external_body]
pub fn rng_from_seed(seed: u64) -> rand::rngs::StdRng {
    rand::rngs::StdRng::seed_from_u64(seed)
}

/// Relies on rand's Rng::gen_range over `0..n`: returns a value below `n`
/// and panics only on an empty range, which the precondition rules out.
#[verifier::external_body]
pub fn rng_gen_range(rng: &mut rand::rngs::StdRng, n: usize) -> (r: usize)
    requires
        n > 0,
    ensures
        r < n,
{
    rng.gen_range(0..n)
}

} // verus!
