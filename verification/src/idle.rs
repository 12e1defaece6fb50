//! When a copy between two silent sides ends.

use vstd::prelude::*;

use crate::clock::Duration;

verus! {

/// How long an established connection may stay silent: two hours and four
/// minutes.
pub fn tcp_idle() -> (d: Duration)
    ensures
        d.nanos == 7440 * 1_000_000_000,
{
    Duration::from_secs(7440)
}

/// When a byte crossed, in milliseconds since the copy began, as far as a `u64`
/// counts.
pub fn touch(elapsed_millis: u128) -> (r: u64)
    ensures
        r == (if elapsed_millis <= u64::MAX {
            elapsed_millis as u64
        } else {
            u64::MAX
        }),
{
    if elapsed_millis <= u64::MAX as u128 {
        elapsed_millis as u64
    } else {
        u64::MAX
    }
}

/// Whether the copy ends when its timer fires: nothing crossed since the timer
/// was armed.
pub fn ends(armed: u64, touched: u64) -> (r: bool)
    ensures
        r == (armed == touched),
{
    armed == touched
}

/// An idle timer that was armed for a touch ends the flow exactly if nothing touched it
/// since; a touch is its time in milliseconds.
pub proof fn only_an_untouched_flow_ends(armed: u64, touched: u64, r: bool, elapsed: u128, t: u64, d: Duration)
    requires
        call_ensures(ends, (armed, touched), r),
        call_ensures(touch, (elapsed,), t),
        call_ensures(tcp_idle, (), d),
    ensures
        r <==> armed == touched,
        elapsed <= u64::MAX ==> t == elapsed,
        elapsed > u64::MAX ==> t == u64::MAX,
        d.nanos == (2 * 3600 + 4 * 60) * 1_000_000_000,
{
}

} // verus!
