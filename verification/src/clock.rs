//! The clock that times a search.

use instant::Instant;
use vstd::prelude::*;

verus! {

#[verifier::external_type_specification]
#[verifier::external_body]
pub struct ExInstant(instant::Instant);

/// `Instant::now` of the `instant` crate: the present moment. Nothing is
/// claimed of it.
#[verifier::external_body]
pub(crate) fn clock_start() -> Instant {
    Instant::now()
}

/// `Instant::elapsed` of the `instant` crate, in microseconds: the time
/// since `start`. Nothing is claimed of it.
#[verifier::external_body]
pub(crate) fn elapsed_micros(start: &Instant) -> u128 {
    start.elapsed().as_micros()
}

} // verus!
