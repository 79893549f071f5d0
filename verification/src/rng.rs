//! The solver's only source of randomness: a seedable generator from the
//! `rand` crate, reached through two trusted wrappers.  Everything that
//! consumes a random value takes it as a plain argument and is verified for
//! every value the wrappers may hand back.

use vstd::prelude::*;

verus! {

#[verifier::external_type_specification]
#[verifier::external_body]
pub struct ExStdRng(rand::rngs::StdRng);

/// Relies on rand_core::SeedableRng::seed_from_u64: builds a generator from a
/// 64-bit seed.  Nothing is promised of the stream it will produce.
#[verifier::external_body]
pub fn rng_from_seed(seed: u64) -> rand::rngs::StdRng {
    <rand::rngs::StdRng as rand::SeedableRng>::seed_from_u64(seed)
}

/// Relies on rand::Rng::gen_range over the half-open range `0..n`: for a
/// non-empty range it returns a value inside it (it panics only on an empty
/// range, which the precondition rules out).  Which value comes back is not
/// promised: callers are verified for every `r < n`.
#[verifier::external_body]
pub fn rng_below(rng: &mut rand::rngs::StdRng, n: usize) -> (r: usize)
    requires
        n > 0,
    ensures
        r < n,
{
    rand::Rng::gen_range(rng, 0..n)
}

} // verus!
