//! Wall-clock sampling for compute budgets.  The clock is outside the
//! verified world: nothing is assumed about the values it returns, so
//! callers bound their loops by an explicit fuel counter as well.

use std::time::{Duration, Instant};
use vstd::prelude::*;

verus! {

#[verifier::external_type_specification]
#[verifier::external_body]
pub struct ExInstant(Instant);

/// Relies on std::time::Instant::now: an opaque reading of the monotonic
/// clock.  Nothing is assumed of the value.
#[verifier::external_body]
pub(crate) fn now() -> Instant {
    Instant::now()
}

/// Relies on std::time::Instant::elapsed: the time since the reading was
/// taken.  Nothing is assumed of the value.
#[verifier::external_body]
pub(crate) fn elapsed_of(t: &Instant) -> Duration {
    t.elapsed()
}

/// Relies on core::time::Duration::as_millis: the duration in whole
/// milliseconds.  Nothing is assumed of the value.
#[verifier::external_body]
pub(crate) fn millis_of(d: &Duration) -> u128 {
    d.as_millis()
}

} // verus!
