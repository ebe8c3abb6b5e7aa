//! An opaque time sample from a monotonic source.
//!
//! Callers never inspect absolute values, only differences. Subtraction of an
//! earlier sample from a later one yields an unsigned elapsed duration; if the
//! source is not monotonic the subtraction wraps rather than failing.

use vstd::prelude::*;

verus! {

/// One sample of the profiling clock, in nanoseconds. The absolute value
/// carries no meaning; only the difference of two samples from the same
/// context does.
#[derive(Copy, Clone)]
pub struct TimeSample {
    ticks: u64,
}

impl View for TimeSample {
    type V = u64;

    closed spec fn view(&self) -> u64 {
        self.ticks
    }
}

impl TimeSample {
    /// Relies on std::time::SystemTime::now: samples the system clock, here
    /// converted to nanoseconds since the epoch. Nothing is promised of the
    /// value; contracts downstream hold for every sample the clock may return.
    /// Assumes the program runs for less than about five hundred years.
    #[verifier::external_body]
    pub fn now() -> TimeSample {
        let ticks = match std::time::SystemTime::now().duration_since(std::time::UNIX_EPOCH) {
            Ok(d) => d.as_nanos() as u64,
            Err(_) => 0,
        };
        TimeSample { ticks }
    }

    /// Wraps a known tick count, so that a recorded log can be rebuilt from
    /// plain values.
    pub fn from_ticks(ticks: u64) -> (r: TimeSample)
        ensures
            r@ == ticks,
    {
        TimeSample { ticks }
    }

    /// Elapsed ticks since `rhs`. Wraps silently if `rhs` was sampled later.
    pub fn sub(self, rhs: TimeSample) -> (r: u64)
        ensures
            r == vstd::wrapping::u64_specs::wrapping_sub(self@, rhs@),
    {
        self.ticks.wrapping_sub(rhs.ticks)
    }
}

} // verus!
