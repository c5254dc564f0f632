//! The monotonic clock (`std::time::Instant`), held as an opaque value.
use std::time::Instant;
use vstd::prelude::*;

verus! {

#[verifier::external_type_specification]
#[verifier::external_body]
pub struct ExInstant(Instant);

/// The current instant (`Instant::now`); nothing is promised of it.
#[verifier::external_body]
pub(crate) fn now() -> Instant {
    Instant::now()
}

/// Milliseconds elapsed since `t` (`Instant::elapsed`); it depends on the
/// clock, so nothing is promised of it.
#[verifier::external_body]
pub(crate) fn elapsed_millis(t: &Instant) -> u128 {
    t.elapsed().as_millis()
}

} // verus!
