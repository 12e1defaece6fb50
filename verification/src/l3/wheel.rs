//! A timer wheel of one-second buckets.

use vstd::prelude::*;

use crate::clock::Instant;
use crate::clock::NANOS_PER_SEC;

verus! {

/// Seconds the wheel covers. RFC 4787's two-minute minimum idle timeout is well
/// inside; deadlines beyond stay aside until they enter range.
pub const WHEEL_BUCKETS: u64 = 512;

/// The last second the wheel tells apart.
pub const LAST_SECOND: u64 = 0xffff_ffff_ffff_fbff;

/// The largest origin a wheel can have, so that every second has its instant.
pub const LAST_EPOCH: u128 = 0x7fff_ffff_ffff_ffff_ffff_ffff_ffff_ffff;

/// Entries by the second of their deadline.
pub struct TimerWheel<T> {
    /// Bucket `s % 512` holds entries whose deadline is in second `s`. Entries
    /// a full rotation apart collide, so expiry rechecks each real deadline.
    buckets: Vec<Vec<(u64, T)>>,
    overflow: Vec<(u64, T)>,
    /// Seconds count from here.
    epoch: Instant,
    /// No entry is filed before this second.
    drained: u64,
}

/// The second of an instant, counted from `epoch`.
pub open spec fn second_of(epoch: Instant, t: Instant) -> u64 {
    if t.nanos <= epoch.nanos {
        0
    } else {
        let s = (t.nanos - epoch.nanos) / NANOS_PER_SEC as int;
        if s > LAST_SECOND {
            LAST_SECOND
        } else {
            s as u64
        }
    }
}

/// The first instant of a second. All that is before `epoch` is in the first.
pub open spec fn start_of(epoch: Instant, second: u64) -> int {
    if second == 0 {
        0
    } else {
        epoch.nanos + second * NANOS_PER_SEC
    }
}

/// A later instant is in no earlier second, and a second begins before the
/// instants in it.
pub proof fn lemma_second_of(epoch: Instant, a: Instant, b: Instant)
    ensures
        a.nanos <= b.nanos ==> second_of(epoch, a) <= second_of(epoch, b),
        start_of(epoch, second_of(epoch, a)) <= a.nanos,
{
    assert(a.nanos <= b.nanos ==> (a.nanos - epoch.nanos) / 1_000_000_000 <= (b.nanos - epoch.nanos)
        / 1_000_000_000) by (nonlinear_arith);
}

/// Whether a bucket list holds an entry.
pub open spec fn bucket_has<T>(buckets: Seq<Vec<(u64, T)>>, second: u64, entry: T) -> bool {
    exists|i: int| 0 <= i < buckets[(second % 512) as int]@.len() && #[trigger] buckets[(second % 512) as int]@[i] == (
        second,
        entry,
    )
}

/// Whether a list holds an entry.
pub open spec fn list_has<T>(list: Seq<(u64, T)>, second: u64, entry: T) -> bool {
    exists|i: int| 0 <= i < list.len() && #[trigger] list[i] == (second, entry)
}

/// The number of entries in a bucket list.
pub open spec fn total<T>(buckets: Seq<Vec<(u64, T)>>) -> nat
    decreases buckets.len(),
{
    if buckets.len() == 0 {
        0
    } else {
        total(buckets.drop_last()) + buckets.last()@.len()
    }
}

/// Replacing one bucket changes the number by the difference.
proof fn lemma_total_update<T>(buckets: Seq<Vec<(u64, T)>>, at: int, v: Vec<(u64, T)>)
    requires
        0 <= at < buckets.len(),
    ensures
        total(buckets.update(at, v)) == total(buckets) - buckets[at]@.len() + v@.len(),
        total(buckets) >= buckets[at]@.len(),
    decreases buckets.len(),
{
    let after = buckets.update(at, v);
    if at == buckets.len() - 1 {
        assert(after.drop_last() =~= buckets.drop_last());
    } else {
        lemma_total_update(buckets.drop_last(), at, v);
        assert(after.drop_last() =~= buckets.drop_last().update(at, v));
    }
}

/// No entries, no bucket occupied.
proof fn lemma_total_zero<T>(buckets: Seq<Vec<(u64, T)>>)
    ensures
        total(buckets) == 0 <==> forall|i: int| 0 <= i < buckets.len() ==> (#[trigger] buckets[i])@.len() == 0,
    decreases buckets.len(),
{
    if buckets.len() > 0 {
        let front = buckets.drop_last();
        lemma_total_zero(front);
        if total(buckets) == 0 {
            assert forall|i: int| 0 <= i < buckets.len() implies (#[trigger] buckets[i])@.len() == 0 by {
                if i < buckets.len() - 1 {
                    assert(front[i] == buckets[i]);
                }
            }
        } else if forall|i: int| 0 <= i < buckets.len() ==> (#[trigger] buckets[i])@.len() == 0 {
            assert forall|i: int| 0 <= i < front.len() implies (#[trigger] front[i])@.len() == 0 by {
                assert(front[i] == buckets[i]);
            }
            assert(buckets[buckets.len() - 1]@.len() == 0);
        }
    }
}

/// Every entry lies in its own second's bucket, and in a second of at least
/// `low`.
pub open spec fn placed<T>(buckets: Seq<Vec<(u64, T)>>, low: u64) -> bool {
    &&& buckets.len() == 512
    &&& forall|b: int, i: int|
        #![trigger buckets[b]@[i]]
        0 <= b < 512 && 0 <= i < buckets[b]@.len() ==> buckets[b]@[i].0 % 512 == b && low <= buckets[b]@[i].0
            <= LAST_SECOND + 1
}

impl<T: Copy> TimerWheel<T> {
    pub closed spec fn wf(&self) -> bool {
        &&& placed(self.buckets@, self.drained)
        &&& self.drained <= LAST_SECOND + 1
        &&& self.epoch.nanos <= LAST_EPOCH
        &&& forall|i: int|
            0 <= i < self.overflow@.len() ==> self.drained + 512 <= (#[trigger] self.overflow@[i]).0 <= LAST_SECOND + 1
    }

    /// Whether an entry is filed under a second.
    pub closed spec fn has(&self, second: u64, entry: T) -> bool {
        bucket_has(self.buckets@, second, entry) || list_has(self.overflow@, second, entry)
    }

    /// The number of entries filed.
    pub closed spec fn slots(&self) -> nat {
        total(self.buckets@) + self.overflow@.len()
    }

    /// A second before which nothing is filed.
    pub closed spec fn undrained(&self) -> u64 {
        self.drained
    }

    pub closed spec fn origin(&self) -> Instant {
        self.epoch
    }

    /// Whether a second's bucket holds anything.
    pub closed spec fn occupied(&self, second: int) -> bool {
        self.buckets@[second % 512]@.len() > 0
    }

    /// Whether anything lies beyond the wheel's range.
    pub closed spec fn beyond(&self) -> bool {
        self.overflow@.len() > 0
    }

    pub fn new(epoch: Instant) -> (w: Self)
        requires
            epoch.nanos <= LAST_EPOCH,
        ensures
            w.wf(),
            w.origin() == epoch,
            w.undrained() == 0,
            w.slots() == 0,
            forall|s: u64, e: T| !w.has(s, e),
    {
        let mut buckets: Vec<Vec<(u64, T)>> = Vec::new();
        let mut n: u64 = 0;
        while n < WHEEL_BUCKETS
            invariant
                n <= 512,
                buckets@.len() == n,
                forall|b: int| 0 <= b < n ==> (#[trigger] buckets@[b])@.len() == 0,
            decreases 512 - n,
        {
            buckets.push(Vec::new());
            n = n + 1;
        }
        proof {
            lemma_total_zero(buckets@);
        }
        TimerWheel { buckets, overflow: Vec::new(), epoch, drained: 0 }
    }

    pub fn epoch(&self) -> (t: Instant)
        requires
            self.wf(),
        ensures
            t == self.origin(),
            t.nanos <= LAST_EPOCH,
    {
        self.epoch
    }

    pub fn second(&self, t: Instant) -> (s: u64)
        ensures
            s == second_of(self.origin(), t),
    {
        if t.nanos <= self.epoch.nanos {
            return 0;
        }
        let s: u128 = (t.nanos - self.epoch.nanos) / NANOS_PER_SEC;
        if s > LAST_SECOND as u128 {
            LAST_SECOND
        } else {
            s as u64
        }
    }

    /// Files an entry under its deadline's second, however early that is.
    /// Expiry still checks the exact deadline, so this cannot evict early.
    pub fn insert(&mut self, deadline: Instant, entry: T)
        requires
            old(self).wf(),
        ensures
            final(self).wf(),
            final(self).origin() == old(self).origin(),
            final(self).undrained() == (if second_of(old(self).origin(), deadline) < old(self).undrained() {
                second_of(old(self).origin(), deadline)
            } else {
                old(self).undrained()
            }),
            final(self).slots() == old(self).slots() + 1,
            forall|s: u64, e: T| #[trigger]
                final(self).has(s, e) <==> old(self).has(s, e) || (s == second_of(old(self).origin(), deadline)
                    && e == entry),
    {
        let second: u64 = self.second(deadline);
        let ghost was = *self;
        if second < self.drained {
            self.drained = second;
        }
        if second >= self.drained + WHEEL_BUCKETS {
            self.overflow.push((second, entry));
            proof {
                let before = was.overflow@;
                let after = self.overflow@;
                assert forall|s: u64, e: T| #[trigger] self.has(s, e) <==> was.has(s, e) || (s == second && e
                    == entry) by {
                    if list_has(before, s, e) {
                        let i = choose|i: int| 0 <= i < before.len() && #[trigger] before[i] == (s, e);
                        assert(after[i] == (s, e));
                    }
                    if s == second && e == entry {
                        assert(after[before.len() as int] == (s, e));
                    }
                    if list_has(after, s, e) {
                        let i = choose|i: int| 0 <= i < after.len() && #[trigger] after[i] == (s, e);
                        if i < before.len() {
                            assert(before[i] == (s, e));
                        }
                    }
                }
            }
        } else {
            push_into(&mut self.buckets, second, entry, Ghost(self.drained));
        }
    }

    /// Whether an entry is filed under a second of at most `horizon`.
    pub open spec fn due(&self, horizon: u64, entry: T) -> bool {
        exists|s: u64| s <= horizon && #[trigger] self.has(s, entry)
    }

    /// Takes the due entries out of the overflow, and files in a bucket those
    /// that come into range once the wheel is drained up to `low`.
    fn take_overflow(&mut self, horizon: u64, low: u64, surfaced: &mut Vec<T>)
        requires
            old(self).wf(),
            horizon <= LAST_SECOND,
            low == (if old(self).drained <= horizon {
                horizon
            } else {
                old(self).drained
            }),
        ensures
            placed(final(self).buckets@, final(self).drained),
            final(self).drained == old(self).drained,
            final(self).epoch == old(self).epoch,
            forall|i: int|
                0 <= i < final(self).overflow@.len() ==> low + 512 <= (#[trigger] final(self).overflow@[i]).0
                    <= LAST_SECOND + 1,
            forall|s: u64, e: T| #[trigger]
                final(self).has(s, e) <==> old(self).has(s, e) && (s > horizon || bucket_has(
                    old(self).buckets@,
                    s,
                    e,
                )),
            forall|s: u64, e: T| #[trigger]
                bucket_has(final(self).buckets@, s, e) && s <= horizon ==> bucket_has(old(self).buckets@, s, e),
            final(surfaced)@ == old(surfaced)@ + due_of(old(self).overflow@, horizon),
            final(self).slots() + final(surfaced)@.len() == old(self).slots() + old(surfaced)@.len(),
    {
        let ghost was = *old(self);
        let rest: Vec<(u64, T)> = split(&self.overflow, horizon, surfaced);
        proof {
            lemma_split(was.overflow@, horizon);
        }
        self.overflow = Vec::new();
        let mut i: usize = 0;
        while i < rest.len()
            invariant
                i <= rest@.len(),
                rest@ == later(was.overflow@, horizon),
                was.wf(),
                horizon <= LAST_SECOND,
                low == (if was.drained <= horizon {
                    horizon
                } else {
                    was.drained
                }),
                forall|s: u64, e: T| #[trigger]
                    list_has(rest@, s, e) <==> list_has(was.overflow@, s, e) && s > horizon,
                self.drained == was.drained,
                self.epoch == was.epoch,
                placed(self.buckets@, self.drained),
                forall|j: int|
                    0 <= j < self.overflow@.len() ==> low + 512 <= (#[trigger] self.overflow@[j]).0
                        <= LAST_SECOND + 1,
                forall|s: u64, e: T| #[trigger]
                    self.has(s, e) <==> bucket_has(was.buckets@, s, e) || list_has(rest@.take(i as int), s, e),
                forall|s: u64, e: T| #[trigger]
                    bucket_has(self.buckets@, s, e) && s <= horizon ==> bucket_has(was.buckets@, s, e),
                total(self.buckets@) + self.overflow@.len() == total(was.buckets@) + i,
            decreases rest@.len() - i,
        {
            let (second, entry): (u64, T) = rest[i];
            let ghost before = *self;
            proof {
                assert(rest@[i as int] == (second, entry));
                assert(list_has(rest@, second, entry));
                let k = choose|k: int|
                    0 <= k < was.overflow@.len() && #[trigger] was.overflow@[k] == (second, entry);
                assert(was.overflow@[k].0 == second);
                lemma_list_push(rest@.take(i as int), (second, entry));
                assert(rest@.take(i as int).push((second, entry)) =~= rest@.take(i + 1));
            }
            if second < low + WHEEL_BUCKETS {
                push_into(&mut self.buckets, second, entry, Ghost(self.drained));
            } else {
                self.overflow.push((second, entry));
                proof {
                    lemma_list_push(before.overflow@, (second, entry));
                }
            }
            proof {
                assert forall|s: u64, e: T| #[trigger] self.has(s, e) <==> before.has(s, e) || (second, entry)
                    == (s, e) by {}
                assert forall|s: u64, e: T| #[trigger] self.has(s, e) <==> bucket_has(was.buckets@, s, e)
                    || list_has(rest@.take(i + 1), s, e) by {
                    assert(before.has(s, e) <==> bucket_has(was.buckets@, s, e) || list_has(
                        rest@.take(i as int),
                        s,
                        e,
                    ));
                    assert(list_has(rest@.take(i as int).push((second, entry)), s, e) <==> list_has(
                        rest@.take(i as int),
                        s,
                        e,
                    ) || (second, entry) == (s, e));
                }
            }
            i = i + 1;
        }
        proof {
            assert(rest@.take(i as int) =~= rest@);
        }
    }

    /// Surfaces entries whose second has arrived by `now`. The second of `now`
    /// is not over, so entries may still be filed under it.
    ///
    /// Rotation collisions stay, and callers still check exact deadlines before
    /// eviction.
    pub fn take_due(&mut self, now: Instant, surfaced: &mut Vec<T>)
        requires
            old(self).wf(),
            old(surfaced)@.len() == 0,
        ensures
            final(self).wf(),
            final(self).origin() == old(self).origin(),
            final(self).undrained() == (if old(self).undrained() <= second_of(old(self).origin(), now) {
                second_of(old(self).origin(), now)
            } else {
                old(self).undrained()
            }),
            forall|s: u64, e: T| #[trigger]
                final(self).has(s, e) <==> old(self).has(s, e) && s > second_of(old(self).origin(), now),
            forall|e: T| #[trigger]
                given(final(surfaced)@, e) <==> old(self).due(second_of(old(self).origin(), now), e),
            final(self).slots() + final(surfaced)@.len() == old(self).slots(),
            old(self).undrained() > second_of(old(self).origin(), now) ==> final(surfaced)@.len() == 0,
    {
        let horizon: u64 = self.second(now);
        let low: u64 = if self.drained <= horizon {
            horizon
        } else {
            self.drained
        };
        let ghost was = *old(self);
        self.take_overflow(horizon, low, surfaced);
        proof {
            lemma_split(was.overflow@, horizon);
            assert forall|e: T| #[trigger] given(surfaced@, e) <==> exists|s: u64|
                s <= horizon && #[trigger] list_has(was.overflow@, s, e) by {
                assert(surfaced@ =~= due_of(was.overflow@, horizon));
            }
            assert forall|e: T| #[trigger] given(surfaced@, e) implies was.due(horizon, e) by {
                let s = choose|s: u64| s <= horizon && #[trigger] list_has(was.overflow@, s, e);
                assert(was.has(s, e));
            }
        }
        let ghost mid = *self;
        let mut at: u64 = self.drained;
        while at <= horizon
            invariant
                was.wf(),
                horizon <= LAST_SECOND,
                placed(self.buckets@, at),
                was.drained <= at <= LAST_SECOND + 1,
                at > horizon ==> at == horizon + 1 || at == was.drained,
                low == (if was.drained <= horizon {
                    horizon
                } else {
                    was.drained
                }),
                self.epoch == was.epoch,
                self.overflow == mid.overflow,
                forall|s: u64, e: T| #[trigger]
                    bucket_has(self.buckets@, s, e) ==> bucket_has(mid.buckets@, s, e),
                forall|s: u64, e: T| #[trigger]
                    bucket_has(mid.buckets@, s, e) ==> bucket_has(self.buckets@, s, e) || (s <= horizon && given(
                        surfaced@,
                        e,
                    )),
                forall|s: u64, e: T| #[trigger]
                    list_has(was.overflow@, s, e) && s <= horizon ==> given(surfaced@, e),
                forall|s: u64, e: T| #[trigger]
                    bucket_has(mid.buckets@, s, e) && s <= horizon ==> was.has(s, e),
                forall|e: T| #[trigger] given(surfaced@, e) ==> was.due(horizon, e),
                total(self.buckets@) + self.overflow@.len() + surfaced@.len() == was.slots(),
            decreases horizon + 1 - at,
        {
            drain_bucket(&mut self.buckets, at, horizon, surfaced);
            at = at + 1;
        }
        self.drained = low;
        proof {
            assert forall|s: u64, e: T| #[trigger] self.has(s, e) <==> was.has(s, e) && s > horizon by {
                if bucket_has(self.buckets@, s, e) {
                    lemma_placed(self.buckets@, at, s, e);
                    assert(mid.has(s, e));
                }
                if list_has(self.overflow@, s, e) {
                    assert(mid.has(s, e));
                    let i = choose|i: int|
                        0 <= i < self.overflow@.len() && #[trigger] self.overflow@[i] == (s, e);
                    assert(self.overflow@[i].0 >= low + 512);
                }
                if was.has(s, e) && s > horizon {
                    assert(mid.has(s, e));
                }
            }
            if was.drained > horizon && surfaced@.len() > 0 {
                let e = surfaced@[0];
                assert(given(surfaced@, e));
                let s = choose|s: u64| s <= horizon && #[trigger] was.has(s, e);
                if bucket_has(was.buckets@, s, e) {
                    lemma_placed(was.buckets@, was.drained, s, e);
                } else {
                    let i = choose|i: int|
                        0 <= i < was.overflow@.len() && #[trigger] was.overflow@[i] == (s, e);
                    assert(was.overflow@[i].0 >= was.drained + 512);
                }
            }
            assert forall|e: T| was.due(horizon, e) implies #[trigger] given(surfaced@, e) by {
                let s = choose|s: u64| s <= horizon && #[trigger] was.has(s, e);
                if bucket_has(was.buckets@, s, e) {
                    assert(mid.has(s, e));
                    if bucket_has(mid.buckets@, s, e) {
                        if bucket_has(self.buckets@, s, e) {
                            lemma_placed(self.buckets@, at, s, e);
                        }
                    } else {
                        let i = choose|i: int|
                            0 <= i < mid.overflow@.len() && #[trigger] mid.overflow@[i] == (s, e);
                        assert(mid.overflow@[i].0 >= low + 512);
                    }
                }
            }
        }
    }

    /// The number of entries filed.
    pub fn len(&self) -> (n: u128)
        requires
            self.wf(),
        ensures
            n == self.slots(),
    {
        let mut n: u128 = self.overflow.len() as u128;
        let mut b: usize = 0;
        assert(self.buckets@.take(0) =~= Seq::<Vec<(u64, T)>>::empty());
        while b < self.buckets.len()
            invariant
                b <= self.buckets@.len() == 512,
                n == self.overflow@.len() + total(self.buckets@.take(b as int)),
                n <= (b + 1) * 0xffff_ffff_ffff_ffff,
            decreases 512 - b,
        {
            n = n + self.buckets[b].len() as u128;
            proof {
                assert(self.buckets@.take(b + 1).drop_last() =~= self.buckets@.take(b as int));
            }
            b = b + 1;
        }
        assert(self.buckets@.take(b as int) =~= self.buckets@);
        n
    }

    /// Whether `r` is the first second that may hold an entry: the first
    /// occupied one in the wheel's range, or its end where entries lie beyond.
    pub open spec fn is_next_due(&self, r: Option<u64>) -> bool {
        match r {
            Some(second) => {
                &&& self.undrained() <= second <= self.undrained() + 512
                &&& forall|s: int| self.undrained() <= s < second ==> !#[trigger] self.occupied(s)
                &&& if second < self.undrained() + 512 {
                    self.occupied(second as int)
                } else {
                    self.beyond()
                }
            },
            None => !self.beyond() && forall|s: int|
                self.undrained() <= s < self.undrained() + 512 ==> !#[trigger] self.occupied(s),
        }
    }

    /// Returns a lower bound for the earliest second filed.
    ///
    /// Occupied buckets before the result are absent, while later buckets and
    /// the overflow cannot contain an earlier entry. The bound can be early due
    /// to collisions but never late, and its cost is independent of how many
    /// entries there are.
    pub fn next_due(&self) -> (r: Option<u64>)
        requires
            self.wf(),
        ensures
            self.is_next_due(r),
            r is None <==> self.slots() == 0,
            forall|s: u64, e: T| #[trigger] self.has(s, e) ==> r is Some && r->Some_0 <= s,
    {
        let end: u64 = self.drained + WHEEL_BUCKETS;
        let mut second: u64 = self.drained;
        proof {
            lemma_total_zero(self.buckets@);
        }
        while second < end
            invariant
                self.wf(),
                self.drained <= second <= end,
                end == self.drained + 512,
                total(self.buckets@) == 0 <==> forall|i: int|
                    0 <= i < self.buckets@.len() ==> (#[trigger] self.buckets@[i])@.len() == 0,
                forall|s: int| self.drained <= s < second ==> !#[trigger] self.occupied(s),
            decreases end - second,
        {
            if self.buckets[(second % WHEEL_BUCKETS) as usize].len() > 0 {
                proof {
                    assert(self.occupied(second as int));
                    self.lemma_bound(second);
                }
                return Some(second);
            }
            assert(!self.occupied(second as int));
            second = second + 1;
        }
        proof {
            self.lemma_bound(end);
            assert forall|i: int| 0 <= i < self.buckets@.len() implies (#[trigger] self.buckets@[i])@.len()
                == 0 by {
                let d = self.drained as int;
                let s = d + (i - d) % 512;
                assert(s % 512 == i);
                assert(!self.occupied(s));
            }
        }
        if self.overflow.len() > 0 {
            Some(end)
        } else {
            proof {
                assert forall|s: u64, e: T| !#[trigger] self.has(s, e) by {}
            }
            None
        }
    }

    /// With no bucket occupied before `second`, nothing is filed before it.
    proof fn lemma_bound(&self, second: u64)
        requires
            self.wf(),
            self.drained <= second <= self.drained + 512,
            forall|s: int| self.drained <= s < second ==> !#[trigger] self.occupied(s),
        ensures
            forall|s: u64, e: T| #[trigger] self.has(s, e) ==> second <= s,
    {
        assert forall|s: u64, e: T| #[trigger] self.has(s, e) implies second <= s by {
            if bucket_has(self.buckets@, s, e) {
                let b = (s % 512) as int;
                let i = choose|i: int|
                    0 <= i < self.buckets@[b]@.len() && #[trigger] self.buckets@[b]@[i] == (s, e);
                assert(self.buckets@[b]@[i].0 >= self.drained);
                let d = self.drained as int;
                let near = d + (s - d) % 512;
                assert(near % 512 == b);
                assert(near <= s);
                assert(self.occupied(near));
            } else {
                let i = choose|i: int| 0 <= i < self.overflow@.len() && #[trigger] self.overflow@[i] == (s, e);
                assert(self.overflow@[i].0 >= self.drained + 512);
            }
        }
    }
}

/// Files an entry in its second's bucket.
fn push_into<T: Copy>(buckets: &mut Vec<Vec<(u64, T)>>, second: u64, entry: T, Ghost(low): Ghost<u64>)
    requires
        placed(old(buckets)@, low),
        low <= second <= LAST_SECOND + 1,
    ensures
        placed(final(buckets)@, low),
        total(final(buckets)@) == total(old(buckets)@) + 1,
        forall|s: u64, e: T| #[trigger]
            bucket_has(final(buckets)@, s, e) <==> bucket_has(old(buckets)@, s, e) || (s == second && e == entry),
{
    let b: usize = (second % WHEEL_BUCKETS) as usize;
    let ghost before = buckets@;
    buckets[b].push((second, entry));
    proof {
        let after = buckets@;
        let at = b as int;
        assert(after =~= before.update(at, after[at]));
        lemma_total_update(before, at, after[at]);
        assert(after[at]@ == before[at]@.push((second, entry)));
        assert forall|c: int, i: int|
            #![trigger after[c]@[i]]
            0 <= c < 512 && 0 <= i < after[c]@.len() implies after[c]@[i].0 % 512 == c && low <= after[c]@[i].0
            <= LAST_SECOND + 1 by {
            if c != at || i < before[at]@.len() {
                assert(after[c]@[i] == before[c]@[i]);
            }
        }
        assert forall|s: u64, e: T| #[trigger]
            bucket_has(after, s, e) <==> bucket_has(before, s, e) || (s == second && e == entry) by {
            let c = (s % 512) as int;
            if bucket_has(before, s, e) {
                let i = choose|i: int| 0 <= i < before[c]@.len() && #[trigger] before[c]@[i] == (s, e);
                assert(after[c]@[i] == (s, e));
            }
            if s == second && e == entry {
                assert(after[at]@[before[at]@.len() as int] == (s, e));
            }
            if bucket_has(after, s, e) {
                let i = choose|i: int| 0 <= i < after[c]@.len() && #[trigger] after[c]@[i] == (s, e);
                if c != at || i < before[at]@.len() {
                    assert(before[c]@[i] == (s, e));
                }
            }
        }
    }
}

/// Whether a list of entries holds one.
pub open spec fn given<T>(list: Seq<T>, entry: T) -> bool {
    list.contains(entry)
}

/// The entries of a list that are not due by `horizon`, in order.
pub open spec fn later<T>(list: Seq<(u64, T)>, horizon: u64) -> Seq<(u64, T)>
    decreases list.len(),
{
    if list.len() == 0 {
        list
    } else if list.last().0 > horizon {
        later(list.drop_last(), horizon).push(list.last())
    } else {
        later(list.drop_last(), horizon)
    }
}

/// The entries of a list that are due by `horizon`, in order.
pub open spec fn due_of<T>(list: Seq<(u64, T)>, horizon: u64) -> Seq<T>
    decreases list.len(),
{
    if list.len() == 0 {
        Seq::empty()
    } else if list.last().0 <= horizon {
        due_of(list.drop_last(), horizon).push(list.last().1)
    } else {
        due_of(list.drop_last(), horizon)
    }
}

/// What a longer list holds.
proof fn lemma_list_push<T>(list: Seq<(u64, T)>, last: (u64, T))
    ensures
        forall|s: u64, e: T| #[trigger]
            list_has(list.push(last), s, e) <==> list_has(list, s, e) || last == (s, e),
{
    let after = list.push(last);
    assert forall|s: u64, e: T| #[trigger] list_has(after, s, e) <==> list_has(list, s, e) || last == (s, e) by {
        if list_has(after, s, e) {
            let i = choose|i: int| 0 <= i < after.len() && #[trigger] after[i] == (s, e);
            if i < list.len() {
                assert(list[i] == (s, e));
            }
        }
        if list_has(list, s, e) {
            let i = choose|i: int| 0 <= i < list.len() && #[trigger] list[i] == (s, e);
            assert(after[i] == (s, e));
        }
        assert(after[list.len() as int] == last);
    }
}

/// Splitting a list loses and adds nothing.
proof fn lemma_split<T>(list: Seq<(u64, T)>, horizon: u64)
    ensures
        forall|s: u64, e: T| #[trigger]
            list_has(later(list, horizon), s, e) <==> list_has(list, s, e) && s > horizon,
        forall|e: T| #[trigger]
            given(due_of(list, horizon), e) <==> exists|s: u64| s <= horizon && #[trigger] list_has(list, s, e),
        later(list, horizon).len() + due_of(list, horizon).len() == list.len(),
    decreases list.len(),
{
    if list.len() > 0 {
        let front = list.drop_last();
        let last = list.last();
        lemma_split(front, horizon);
        assert(front.push(last) =~= list);
        lemma_list_push(front, last);
        if last.0 > horizon {
            lemma_list_push(later(front, horizon), last);
            assert forall|e: T| #[trigger] given(due_of(list, horizon), e) <==> exists|s: u64|
                s <= horizon && #[trigger] list_has(list, s, e) by {
                assert(given(due_of(front, horizon), e) <==> exists|s: u64|
                    s <= horizon && #[trigger] list_has(front, s, e));
                if exists|s: u64| s <= horizon && #[trigger] list_has(list, s, e) {
                    let s = choose|s: u64| s <= horizon && #[trigger] list_has(list, s, e);
                    assert(list_has(front, s, e));
                }
                if exists|s: u64| s <= horizon && #[trigger] list_has(front, s, e) {
                    let s = choose|s: u64| s <= horizon && #[trigger] list_has(front, s, e);
                    assert(list_has(list, s, e));
                }
            }
        } else {
            let before = due_of(front, horizon);
            let after = due_of(list, horizon);
            assert forall|e: T| #[trigger] given(after, e) <==> exists|s: u64|
                s <= horizon && #[trigger] list_has(list, s, e) by {
                assert(given(before, e) <==> exists|s: u64|
                    s <= horizon && #[trigger] list_has(front, s, e));
                if given(after, e) {
                    let i = choose|i: int| 0 <= i < after.len() && after[i] == e;
                    if i < before.len() {
                        assert(before[i] == e);
                        let s = choose|s: u64| s <= horizon && #[trigger] list_has(front, s, e);
                        assert(list_has(list, s, e));
                    } else {
                        assert(list_has(list, last.0, e));
                    }
                }
                if exists|s: u64| s <= horizon && #[trigger] list_has(list, s, e) {
                    let s = choose|s: u64| s <= horizon && #[trigger] list_has(list, s, e);
                    if list_has(front, s, e) {
                        let i = choose|i: int| 0 <= i < before.len() && before[i] == e;
                        assert(after[i] == e);
                    } else {
                        assert(after[before.len() as int] == e);
                    }
                }
            }
        }
    }
}

/// An entry that is filed lies in a second of at least `low`.
proof fn lemma_placed<T>(buckets: Seq<Vec<(u64, T)>>, low: u64, second: u64, entry: T)
    requires
        placed(buckets, low),
        bucket_has(buckets, second, entry),
    ensures
        second >= low,
{
    let b = (second % 512) as int;
    let i = choose|i: int| 0 <= i < buckets[b]@.len() && #[trigger] buckets[b]@[i] == (second, entry);
    assert(buckets[b]@[i].0 == second);
}

/// Surfaces what is due in a list, and returns the rest.
fn split<T: Copy>(list: &Vec<(u64, T)>, horizon: u64, surfaced: &mut Vec<T>) -> (kept: Vec<(u64, T)>)
    ensures
        kept@ == later(list@, horizon),
        final(surfaced)@ == old(surfaced)@ + due_of(list@, horizon),
{
    let mut kept: Vec<(u64, T)> = Vec::new();
    let mut i: usize = 0;
    assert(list@.take(0) =~= Seq::<(u64, T)>::empty());
    while i < list.len()
        invariant
            i <= list@.len(),
            kept@ =~= later(list@.take(i as int), horizon),
            surfaced@ =~= old(surfaced)@ + due_of(list@.take(i as int), horizon),
        decreases list@.len() - i,
    {
        let (second, entry): (u64, T) = list[i];
        proof {
            assert(list@.take(i + 1).drop_last() =~= list@.take(i as int));
            assert(list@.take(i + 1).last() == (second, entry));
        }
        if second <= horizon {
            surfaced.push(entry);
        } else {
            kept.push((second, entry));
        }
        i = i + 1;
    }
    assert(list@.take(i as int) =~= list@);
    kept
}

/// Surfaces what is due in the bucket of second `at`; entries a rotation later
/// stay in it.
fn drain_bucket<T: Copy>(buckets: &mut Vec<Vec<(u64, T)>>, at: u64, horizon: u64, surfaced: &mut Vec<T>)
    requires
        placed(old(buckets)@, at),
        at <= horizon <= LAST_SECOND,
    ensures
        placed(final(buckets)@, (at + 1) as u64),
        total(final(buckets)@) + final(surfaced)@.len() == total(old(buckets)@) + old(surfaced)@.len(),
        forall|s: u64, e: T| #[trigger] bucket_has(final(buckets)@, s, e) ==> bucket_has(old(buckets)@, s, e),
        forall|s: u64, e: T| #[trigger]
            bucket_has(old(buckets)@, s, e) ==> bucket_has(final(buckets)@, s, e) || (s <= horizon && given(
                final(surfaced)@,
                e,
            )),
        forall|e: T| #[trigger]
            given(final(surfaced)@, e) ==> given(old(surfaced)@, e) || exists|s: u64|
                s <= horizon && #[trigger] bucket_has(old(buckets)@, s, e),
        forall|e: T| given(old(surfaced)@, e) ==> #[trigger] given(final(surfaced)@, e),
{
    let b: usize = (at % WHEEL_BUCKETS) as usize;
    let ghost before = buckets@;
    let ghost s0 = surfaced@;
    let kept: Vec<(u64, T)> = split(&buckets[b], horizon, surfaced);
    let ghost c = b as int;
    let ghost done = kept@;
    proof {
        lemma_split(before[c]@, horizon);
    }
    buckets[b] = kept;
    proof {
        let after = buckets@;
        let gone = due_of(before[c]@, horizon);
        assert(surfaced@ == s0 + gone);
        assert(after =~= before.update(c, after[c]));
        lemma_total_update(before, c, after[c]);
        assert forall|d: int, i: int|
            #![trigger after[d]@[i]]
            0 <= d < 512 && 0 <= i < after[d]@.len() implies after[d]@[i].0 % 512 == d && at + 1
            <= after[d]@[i].0 <= LAST_SECOND + 1 by {
            if d != c {
                assert(after[d]@[i] == before[d]@[i]);
            } else {
                let (s, e) = done[i];
                assert(after[d]@[i] == done[i]);
                assert(list_has(done, s, e));
                let j = choose|j: int| 0 <= j < before[c]@.len() && #[trigger] before[c]@[j] == (s, e);
                assert(before[c]@[j].0 % 512 == c);
            }
        }
        assert forall|s: u64, e: T|
            bucket_has(before, s, e) <==> #[trigger] list_has(before[(s % 512) as int]@, s, e) by {}
        assert forall|s: u64, e: T|
            bucket_has(after, s, e) <==> #[trigger] list_has(after[(s % 512) as int]@, s, e) by {}
        assert forall|s: u64, e: T| #[trigger] bucket_has(after, s, e) implies bucket_has(before, s, e) by {
            assert(list_has(after[(s % 512) as int]@, s, e));
            if (s % 512) as int == c {
                assert(list_has(done, s, e));
            }
            assert(list_has(before[(s % 512) as int]@, s, e));
        }
        assert forall|e: T| #[trigger] given(surfaced@, e) <==> given(s0, e) || given(gone, e) by {
            if given(surfaced@, e) {
                let i = choose|i: int| 0 <= i < surfaced@.len() && surfaced@[i] == e;
                if i < s0.len() {
                    assert(s0[i] == e);
                } else {
                    assert(gone[i - s0.len()] == e);
                }
            }
            if given(s0, e) {
                let i = choose|i: int| 0 <= i < s0.len() && s0[i] == e;
                assert(surfaced@[i] == e);
            }
            if given(gone, e) {
                let i = choose|i: int| 0 <= i < gone.len() && gone[i] == e;
                assert(surfaced@[s0.len() + i] == e);
            }
        }
        assert forall|s: u64, e: T| #[trigger] bucket_has(before, s, e) implies bucket_has(after, s, e) || (s
            <= horizon && given(surfaced@, e)) by {
            assert(list_has(before[(s % 512) as int]@, s, e));
            if (s % 512) as int == c {
                if s > horizon {
                    assert(list_has(done, s, e));
                    assert(list_has(after[(s % 512) as int]@, s, e));
                } else {
                    assert(given(gone, e));
                }
            } else {
                assert(list_has(after[(s % 512) as int]@, s, e));
            }
        }
        assert forall|e: T| #[trigger] given(surfaced@, e) implies given(s0, e) || exists|s: u64|
            s <= horizon && #[trigger] bucket_has(before, s, e) by {
            if given(gone, e) {
                let s = choose|s: u64| s <= horizon && #[trigger] list_has(before[c]@, s, e);
                let j = choose|j: int| 0 <= j < before[c]@.len() && #[trigger] before[c]@[j] == (s, e);
                assert(before[c]@[j].0 % 512 == c);
                assert(bucket_has(before, s, e));
            }
        }
    }
}

} // verus!
