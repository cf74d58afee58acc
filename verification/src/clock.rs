//! The one place the library reads the time: pause lengths for the
//! statistics. Nothing is promised of what the clock returns.

use std::time::{Duration, Instant};
use vstd::prelude::*;

verus! {

#[verifier::external_type_specification]
#[verifier::external_body]
pub struct ExInstant(Instant);

/// `Instant::now`: the current reading of the monotonic clock.
#[verifier::external_body]
pub fn now() -> Instant {
    Instant::now()
}

/// `Instant::elapsed`: time since `start` was read.
#[verifier::external_body]
pub fn elapsed(start: &Instant) -> Duration {
    start.elapsed()
}

/// `Duration::as_nanos`, narrowed to `u64` (which spans five centuries).
#[verifier::external_body]
pub fn nanos(d: Duration) -> u64 {
    d.as_nanos() as u64
}

/// Nanoseconds since `start` was read.
pub fn nanos_since(start: &Instant) -> u64 {
    nanos(elapsed(start))
}

} // verus!
