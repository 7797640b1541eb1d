//! The deadline controller: a polled wall-clock stopwatch.
//!
//! The clock decides what the trusted calls below return, so nothing is
//! assumed of their values: every caller is verified to behave correctly
//! whether or not the budget has elapsed.

use vstd::prelude::*;

verus! {

#[verifier::external_type_specification]
#[verifier::external_body]
pub struct ExInstant(std::time::Instant);

/// Relies on `std::time::Instant::now`: a reading of the wall clock.
#[verifier::external_body]
fn instant_now() -> std::time::Instant {
    std::time::Instant::now()
}

/// Relies on `std::time::Instant::elapsed`: the wall-clock time since
/// `start` was read.
#[verifier::external_body]
fn instant_elapsed(start: &std::time::Instant) -> core::time::Duration {
    start.elapsed()
}

/// Relies on `core::time::Duration::as_millis`: the duration in whole
/// milliseconds.
#[verifier::external_body]
fn duration_as_millis(d: &core::time::Duration) -> u128 {
    d.as_millis()
}

/// A scoped stopwatch created with a millisecond budget at the start of a
/// time-boxed search.
pub struct TimeKeeper {
    start_time: std::time::Instant,
    time_threshold: u128,
}

impl TimeKeeper {
    /// The millisecond budget this stopwatch was created with.
    pub closed spec fn threshold(self) -> u128 {
        self.time_threshold
    }

    /// Starts the stopwatch with a budget of `time_threshold` milliseconds.
    pub fn new(time_threshold: u128) -> (r: TimeKeeper)
        ensures
            r.threshold() == time_threshold,
    {
        TimeKeeper { start_time: instant_now(), time_threshold }
    }

    /// Whether the budget has elapsed: elapsed wall-clock milliseconds
    /// compared against the budget. The clock's reading is unconstrained,
    /// so for a positive budget either answer is possible; a zero budget
    /// has always elapsed, since elapsed time is never negative.
    pub fn is_over(&self) -> (r: bool)
        ensures
            self.threshold() == 0 ==> r,
    {
        let elapsed = instant_elapsed(&self.start_time);
        duration_as_millis(&elapsed) >= self.time_threshold
    }
}

} // verus!
