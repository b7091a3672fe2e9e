//! Injected randomness: a seedable generator from the `rand` crate,
//! reached only through trusted wrappers with minimal contracts.
use vstd::prelude::*;

verus! {

/// The standard seedable generator of the `rand` crate, carried opaquely.
#[verifier::external_type_specification]
#[verifier::external_body]
pub struct ExStdRng(rand::rngs::StdRng);

/// Relies on rand::RngExt::random_range over `0..bound`: the sample lies
/// in the requested half-open range.  Nothing else is assumed of it.
#[verifier::external_body]
pub(crate) fn rand_below(rng: &mut rand::rngs::StdRng, bound: u64) -> (r: u64)
    requires
        bound >= 1,
    ensures
        r < bound,
{
    rand::RngExt::random_range(rng, 0..bound)
}

} // verus!
