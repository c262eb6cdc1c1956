//! The monotonic clock, for diagnostic timings only.
use vstd::prelude::*;
use std::time::{Duration, Instant};

verus! {

/// std::time::Instant, carried opaquely from one clock reading to the next.
#[verifier::external_type_specification]
#[verifier::external_body]
pub struct ExInstant(Instant);

/// Relies on std::time::Instant::now: a reading of the monotonic clock.
#[verifier::external_body]
pub(crate) fn clock_now() -> Instant {
    Instant::now()
}

/// Relies on std::time::Instant::elapsed: the time since `start`.
#[verifier::external_body]
pub(crate) fn elapsed_since(start: &Instant) -> Duration {
    start.elapsed()
}

/// Relies on std::time::Duration::as_nanos: the whole nanoseconds of `d`.
#[verifier::external_body]
pub(crate) fn whole_nanos(d: &Duration) -> u128 {
    d.as_nanos()
}

/// Nanoseconds since `start`, saturated at `u64::MAX`.
pub(crate) fn nanos_since(start: &Instant) -> u64 {
    let d = elapsed_since(start);
    let n: u128 = whole_nanos(&d);
    if n > u64::MAX as u128 {
        u64::MAX
    } else {
        n as u64
    }
}

} // verus!
