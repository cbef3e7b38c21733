//! The random source of the randomized search.

use rand::rngs::ThreadRng;
use rand::Rng;
use vstd::prelude::*;

verus! {

#[verifier::external_type_specification]
#[verifier::external_body]
pub struct ExThreadRng(rand::rngs::ThreadRng);

/// `Rng::gen_ratio` of the `rand` crate on a `ThreadRng`: a draw that is
/// `true` with a probability of `numerator` in `denominator`. The outside
/// function panics when the denominator is 0 or smaller than the numerator,
/// which the precondition leaves out. Of the outcome only what it documents
/// for the two certain cases is claimed.
#[verifier::external_body]
pub(crate) fn random_ratio(rand: &mut ThreadRng, numerator: u32, denominator: u32) -> (r: bool)
    requires
        0 < denominator,
        numerator <= denominator,
    ensures
        numerator == denominator ==> r,
        numerator == 0 ==> !r,
{
    rand.gen_ratio(numerator, denominator)
}

} // verus!
