//! Cycle cadence and rate-limiting policy.
//!
//! One crawl cycle runs to completion, its wall-clock cost is measured, and
//! the process sleeps for the remainder of a fixed cadence before the next
//! cycle starts. Between external calls a fixed blocking pause is enforced.
//! The pauses themselves are performed by the caller; this module only
//! decides how long they must be.

use vstd::prelude::*;

verus! {

/// Seconds to sleep after a cycle that took `elapsed_secs` of a
/// `cadence_secs` target cadence: the remainder of the cadence, clamped to
/// zero when the cycle overran it.
pub fn sleep_before_next_cycle(cadence_secs: u64, elapsed_secs: u64) -> (r: u64)
    ensures
        elapsed_secs < cadence_secs ==> r == cadence_secs - elapsed_secs,
        elapsed_secs >= cadence_secs ==> r == 0,
{
    if elapsed_secs >= cadence_secs {
        0
    } else {
        cadence_secs - elapsed_secs
    }
}

/// Fixed inter-call pacing against one external service. The delay is a
/// policy knob chosen at startup, not a hardcoded constant.
pub struct RateLimiter {
    pub delay_secs: u64,
}

impl RateLimiter {
    pub fn new(delay_secs: u64) -> (r: RateLimiter)
        ensures
            r.delay_secs == delay_secs,
    {
        RateLimiter { delay_secs }
    }

    /// Seconds the caller must pause before its next call to the service
    /// this limiter paces.
    pub fn wait_before_next_call(&self) -> (r: u64)
        ensures
            r == self.delay_secs,
    {
        self.delay_secs
    }
}

} // verus!
