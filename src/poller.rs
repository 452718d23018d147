use vstd::prelude::*;

verus! {

/// Nanoseconds between the starts of two background poll cycles.
pub const POLL_INTERVAL_NANOS: u128 = 30000000000;

/// How long the poller sleeps after a cycle that took `elapsed` nanoseconds:
/// the rest of the interval, or nothing once the cycle took the whole interval.
pub fn pause_after_cycle(elapsed: u128) -> (r: u128)
    ensures
        elapsed < POLL_INTERVAL_NANOS ==> r == POLL_INTERVAL_NANOS - elapsed,
        elapsed >= POLL_INTERVAL_NANOS ==> r == 0,
{
    if elapsed < POLL_INTERVAL_NANOS {
        POLL_INTERVAL_NANOS - elapsed
    } else {
        0
    }
}

} // verus!
