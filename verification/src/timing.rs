//! Timing of a computation on the monotonic clock.

use std::time::{Duration, Instant};
use vstd::prelude::*;

verus! {

/// `std::time::Instant`, a reading of the monotonic clock. Nothing is
/// claimed of what it holds.
#[verifier::external_type_specification]
#[verifier::external_body]
pub struct ExInstant(Instant);

/// `Instant::now` reads the clock. Nothing is claimed of the reading.
pub assume_specification[ Instant::now ]() -> (now: Instant);

/// `Instant::elapsed` gives the time since the reading was taken. Nothing
/// is claimed of the duration.
pub assume_specification[ Instant::elapsed ](start: &Instant) -> (elapsed: Duration);

/// Runs `f` and returns what it returns, with the time that it took.
pub fn measure_time<T, F: FnOnce() -> T>(f: F) -> (timed: (T, Duration))
    requires
        f.requires(()),
    ensures
        f.ensures((), timed.0),
{
    let start = Instant::now();
    let out = f();
    let dur = start.elapsed();
    (out, dur)
}

} // verus!
