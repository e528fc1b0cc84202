//! Wall-clock time, which the search reads to respect its deadline.
use vstd::prelude::*;
use std::time::{Duration, Instant};

verus! {

/// A point in time, as std measures it.
#[verifier::external_type_specification]
#[verifier::external_body]
pub struct ExInstant(Instant);

/// The current time (`Instant::now`). Nothing is promised of the value.
#[verifier::external_body]
pub(crate) fn instant_now() -> Instant {
    Instant::now()
}

/// A span of `ms` milliseconds (`Duration::from_millis`). The type is opaque to the
/// verifier, so nothing is promised of the value.
#[verifier::external_body]
pub(crate) fn duration_from_millis(ms: u64) -> Duration {
    Duration::from_millis(ms)
}

/// `start` plus `span` (`Instant::checked_add`): `None` where the platform cannot
/// represent the result. Nothing is promised of the value.
#[verifier::external_body]
pub(crate) fn instant_checked_add(start: Instant, span: Duration) -> Option<Instant> {
    start.checked_add(span)
}

/// Whether `now` is at or after `deadline` (`Instant`'s `>=`). Nothing is
/// promised: the values are opaque to the verifier.
#[verifier::external_body]
pub(crate) fn instant_reached(now: Instant, deadline: Instant) -> bool {
    now >= deadline
}

} // verus!
