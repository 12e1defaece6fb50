//! Instants and durations as plain counts of nanoseconds.

use vstd::prelude::*;

verus! {

/// Nanoseconds in a second.
pub const NANOS_PER_SEC: u128 = 1_000_000_000;

/// A point of a monotonic clock.
#[derive(Clone, Copy, Debug, PartialEq, Eq, Hash, PartialOrd, Ord, Structural)]
pub struct Instant {
    pub nanos: u128,
}

/// A span of time.
#[derive(Clone, Copy, Debug, PartialEq, Eq, Hash, PartialOrd, Ord, Structural)]
pub struct Duration {
    pub nanos: u128,
}

impl Duration {
    pub fn from_secs(secs: u64) -> (d: Self)
        ensures
            d.nanos == secs * NANOS_PER_SEC,
    {
        Duration { nanos: secs as u128 * NANOS_PER_SEC }
    }

    pub fn from_millis(millis: u64) -> (d: Self)
        ensures
            d.nanos == millis * 1_000_000,
    {
        Duration { nanos: millis as u128 * 1_000_000 }
    }
}

impl Instant {
    pub fn checked_add(self, d: Duration) -> (r: Option<Instant>)
        ensures
            match r {
                Some(t) => t.nanos == self.nanos + d.nanos,
                None => self.nanos + d.nanos > u128::MAX,
            },
    {
        match self.nanos.checked_add(d.nanos) {
            Some(nanos) => Some(Instant { nanos }),
            None => None,
        }
    }
}

/// A second is a thousand milliseconds, and a time and a span add up wherever the clock
/// reaches.
pub proof fn times_add_up(t: Instant, d: Duration, r: Option<Instant>, n: u64, s: Duration, m: Duration)
    requires
        call_ensures(Instant::checked_add, (t, d), r),
        call_ensures(Duration::from_secs, (n,), s),
        call_ensures(Duration::from_millis, (n,), m),
    ensures
        r is Some <==> t.nanos + d.nanos <= u128::MAX,
        r is Some ==> r->0.nanos - d.nanos == t.nanos,
        s.nanos == 1000 * m.nanos,
        m.nanos == n * 1_000_000,
{
}

} // verus!
