//! Readings of the monotonic clock, for timing work.

use vstd::prelude::*;

verus! {

#[verifier::external_type_specification]
#[verifier::external_body]
pub struct ExInstant(std::time::Instant);

/// The current reading of the monotonic clock (`Instant::now`); nothing is claimed of it.
#[verifier::external_body]
pub(crate) fn instant_now() -> std::time::Instant {
    std::time::Instant::now()
}

/// Nanoseconds elapsed since `start` (`Instant::elapsed`, then `Duration::as_nanos`); nothing is
/// claimed of the count, which depends on the clock.
#[verifier::external_body]
pub(crate) fn elapsed_nanos(start: &std::time::Instant) -> u128 {
    start.elapsed().as_nanos()
}

} // verus!
