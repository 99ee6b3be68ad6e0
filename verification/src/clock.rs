//! The wall clock that the time limit is measured against.
//!
//! What the clock reads depends on the machine and the moment, so nothing is stated of
//! `clock_now` and `clock_elapsed`. Building a duration from milliseconds and comparing two
//! durations depend on their arguments alone; a `Duration` has no model here, so their
//! results are named (`millis_duration`, `duration_exceeds`) rather than spelled out.
use vstd::prelude::*;
use std::time::{Duration, Instant};

verus! {

/// A point in time (`std::time::Instant`), carried through unverified.
#[verifier::external_type_specification]
#[verifier::external_body]
pub struct ExInstant(Instant);

/// The duration of `ms` milliseconds, as `Duration::from_millis` builds it.
pub uninterp spec fn millis_duration(ms: u64) -> Duration;

/// Whether the duration `a` is longer than `b`, as `Duration`'s `>` answers.
pub uninterp spec fn duration_exceeds(a: Duration, b: Duration) -> bool;

/// Calls `Instant::now`. Nothing is claimed of the reading.
#[verifier::external_body]
pub(crate) fn clock_now() -> Instant {
    Instant::now()
}

/// Calls `Instant::elapsed`: the time since `start`. Nothing is claimed of the reading.
#[verifier::external_body]
pub(crate) fn clock_elapsed(start: &Instant) -> Duration {
    start.elapsed()
}

/// Calls `<Duration as PartialOrd>::gt`: whether `a` is longer than `b`. Claimed: the
/// answer is `duration_exceeds` of the two durations, that is, it depends on them alone.
#[verifier::external_body]
pub(crate) fn duration_longer(a: &Duration, b: &Duration) -> (r: bool)
    ensures
        r == duration_exceeds(*a, *b),
{
    *a > *b
}

/// Calls `Duration::from_millis`. Claimed: the result is `millis_duration(ms)`, that is,
/// it depends on `ms` alone. `from_millis` does not panic for any `u64`.
#[verifier::external_body]
pub(crate) fn duration_from_millis(ms: u64) -> (r: Duration)
    ensures
        r == millis_duration(ms),
{
    Duration::from_millis(ms)
}

} // verus!
