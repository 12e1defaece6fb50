//! The UDP flow table: one mapping per client endpoint, expiring when idle.

use std::collections::VecDeque;
use vstd::prelude::*;
#[allow(unused_imports)]
use crate::l3::wheel;
#[allow(unused_imports)]
use crate::table;

use crate::addr::InternalEndpoint;
use crate::clock::Duration;
use crate::clock::Instant;
use crate::clock::NANOS_PER_SEC;
use crate::l3::wheel::TimerWheel;
use crate::l3::wheel::LAST_EPOCH;
use crate::table::Key;
use crate::table::Table;

verus! {

/// RFC 4787's minimum idle timeout, in nanoseconds.
pub const MIN_IDLE_NANOS: u128 = 120_000_000_000;

#[derive(Clone, Copy, Debug, PartialEq, Eq, Structural)]
pub enum FlowTableError {
    IdleTimeoutTooShort,
    DeadlineOverflow,
}

impl FlowTableError {
    /// The text of this error.
    pub open spec fn text(self) -> Seq<char> {
        match self {
            FlowTableError::IdleTimeoutTooShort => "idle timeout is below the 120-second RFC 4787 REQ-5 minimum"@,
            FlowTableError::DeadlineOverflow => "mapping deadline overflows the clock"@,
        }
    }

    /// Renders this error for a reader.
    pub fn message(&self) -> (s: String)
        ensures
            s@ == self.text(),
    {
        match self {
            FlowTableError::IdleTimeoutTooShort => String::from_str(
                "idle timeout is below the 120-second RFC 4787 REQ-5 minimum",
            ),
            FlowTableError::DeadlineOverflow => String::from_str("mapping deadline overflows the clock"),
        }
    }
}

#[derive(Clone, Copy, Debug, PartialEq, Eq, Structural)]
pub enum SendOutcome {
    Buffered,
    Dropped,
}

/// A bounded queue of datagrams that drops rather than waits.
pub struct DatagramBuffer<T> {
    capacity: usize,
    datagrams: VecDeque<T>,
    dropped: u64,
}

impl<T> View for DatagramBuffer<T> {
    type V = Seq<T>;

    /// The queued datagrams, oldest first.
    closed spec fn view(&self) -> Seq<T> {
        self.datagrams@
    }
}

impl<T> DatagramBuffer<T> {
    /// The most datagrams it holds.
    pub closed spec fn limit(&self) -> usize {
        self.capacity
    }

    /// How many datagrams were dropped.
    pub closed spec fn drops(&self) -> u64 {
        self.dropped
    }

    /// The queue is within its limit.
    pub open spec fn wf(&self) -> bool {
        self@.len() <= self.limit()
    }

    pub fn new(capacity: usize) -> (b: Self)
        requires
            capacity > 0,
        ensures
            b.wf(),
            b@ == Seq::<T>::empty(),
            b.limit() == capacity,
            b.drops() == 0,
    {
        DatagramBuffer { capacity, datagrams: VecDeque::new(), dropped: 0 }
    }

    pub fn try_send(&mut self, datagram: T) -> (outcome: SendOutcome)
        requires
            old(self).wf(),
        ensures
            final(self).wf(),
            final(self).limit() == old(self).limit(),
            old(self)@.len() < old(self).limit() ==> outcome == SendOutcome::Buffered && final(self)@ == old(self)@.push(datagram) && final(self).drops() == old(self).drops(),
            old(self)@.len() == old(self).limit() ==> outcome == SendOutcome::Dropped && final(self)@ == old(self)@ && final(self).drops() == (if old(self).drops() == u64::MAX {
                u64::MAX
            } else {
                (old(self).drops() + 1) as u64
            }),
    {
        if self.datagrams.len() == self.capacity {
            self.dropped = self.dropped.saturating_add(1);
            return SendOutcome::Dropped;
        }
        self.datagrams.push_back(datagram);
        SendOutcome::Buffered
    }

    pub fn recv(&mut self) -> (r: Option<T>)
        requires
            old(self).wf(),
        ensures
            final(self).wf(),
            final(self).limit() == old(self).limit(),
            final(self).drops() == old(self).drops(),
            match r {
                Some(t) => old(self)@.len() > 0 && t == old(self)@[0] && final(self)@ == old(self)@.skip(1),
                None => old(self)@.len() == 0 && final(self)@ == old(self)@,
            },
    {
        let r = self.datagrams.pop_front();
        proof {
            if old(self)@.len() > 0 {
                assert(self@ =~= old(self)@.skip(1));
            }
        }
        r
    }

    pub fn is_empty(&self) -> (r: bool)
        ensures
            r == (self@.len() == 0),
    {
        self.datagrams.len() == 0
    }

    pub fn len(&self) -> (n: usize)
        ensures
            n == self@.len(),
    {
        self.datagrams.len()
    }

    pub fn dropped(&self) -> (n: u64)
        ensures
            n == self.drops(),
    {
        self.dropped
    }
}

/// What is done to a queue.
pub enum Call<T> {
    Send(T),
    Recv,
}

/// A queue, all that was ever buffered in it, and all that came out.
pub struct Passage<T> {
    pub queue: Seq<T>,
    pub buffered: Seq<T>,
    pub out: Seq<T>,
}

/// What these calls do to an empty queue of at most `limit` datagrams.
pub open spec fn passage<T>(limit: usize, calls: Seq<Call<T>>) -> Passage<T>
    decreases calls.len(),
{
    if calls.len() == 0 {
        Passage { queue: seq![], buffered: seq![], out: seq![] }
    } else {
        let before = passage(limit, calls.drop_last());
        match calls.last() {
            Call::Send(datagram) => if before.queue.len() < limit {
                Passage {
                    queue: before.queue.push(datagram),
                    buffered: before.buffered.push(datagram),
                    ..before
                }
            } else {
                before
            },
            Call::Recv => if before.queue.len() > 0 {
                Passage {
                    queue: before.queue.skip(1),
                    out: before.out.push(before.queue[0]),
                    ..before
                }
            } else {
                before
            },
        }
    }
}

/// What comes out of a queue is what was buffered in it, in order and each once:
/// with what is still queued it is all that was buffered.
pub proof fn what_was_buffered_comes_out_in_order<T>(limit: usize, calls: Seq<Call<T>>)
    ensures
        passage(limit, calls).buffered == passage(limit, calls).out + passage(limit, calls).queue,
        passage(limit, calls).queue.len() <= limit,
    decreases calls.len(),
{
    let after = passage(limit, calls);
    if calls.len() > 0 {
        what_was_buffered_comes_out_in_order(limit, calls.drop_last());
    }
    assert(after.buffered =~= after.out + after.queue);
}

impl Key for InternalEndpoint {
    fn same(&self, other: &Self) -> bool {
        *self == *other
    }
}

/// A flow's value and the instant at which it expires.
pub struct Flow<V> {
    pub value: V,
    pub deadline: Instant,
}

/// Flows by client endpoint. Its view is that map.
pub struct UdpFlowTable<V> {
    idle_timeout: Duration,
    flows: Table<InternalEndpoint, Flow<V>>,
    wheel: TimerWheel<InternalEndpoint>,
}

impl<V> View for UdpFlowTable<V> {
    type V = Map<InternalEndpoint, Flow<V>>;

    closed spec fn view(&self) -> Map<InternalEndpoint, Flow<V>> {
        self.flows@
    }
}

impl<V> UdpFlowTable<V> {
    /// Every flow has a slot in the expiry index, no later than its deadline.
    pub closed spec fn wf(&self) -> bool {
        &&& self.flows.wf()
        &&& self.wheel.wf()
        &&& self.idle_timeout.nanos >= MIN_IDLE_NANOS
        &&& forall|k: InternalEndpoint| #[trigger]
            self.flows@.dom().contains(k) ==> self.slotted(k, self.flows@[k].deadline)
    }

    /// Whether the expiry index holds a slot of an endpoint in the second of a
    /// deadline or before.
    spec fn slotted(&self, k: InternalEndpoint, deadline: Instant) -> bool {
        self.wheel.due(wheel::second_of(self.wheel.origin(), deadline), k)
    }

    pub closed spec fn idle(&self) -> Duration {
        self.idle_timeout
    }

    /// The instant from which seconds are counted.
    pub closed spec fn epoch(&self) -> Instant {
        self.wheel.origin()
    }

    /// Slots in the expiry index.
    pub closed spec fn slots(&self) -> nat {
        self.wheel.slots()
    }

    /// A second before which no slot lies.
    pub closed spec fn undrained(&self) -> u64 {
        self.wheel.undrained()
    }

    /// What a table is with other flows and this one's index: well formed with
    /// the same endpoints, where each has a slot by its deadline.
    proof fn lemma_same_index(&self)
        requires
            self.wheel.wf(),
            self.idle_timeout.nanos >= MIN_IDLE_NANOS,
        ensures
            forall|t: Self|
                t.flows.wf() && t.wheel == self.wheel && t.idle_timeout == self.idle_timeout && t.flows@.dom()
                    == self.flows@.dom() && (forall|k: InternalEndpoint| #[trigger]
                    self.flows@.dom().contains(k) ==> self.slotted(k, t.flows@[k].deadline))
                    ==> #[trigger] t.wf(),
    {
        assert forall|t: Self|
            t.flows.wf() && t.wheel == self.wheel && t.idle_timeout == self.idle_timeout && t.flows@.dom()
                == self.flows@.dom() && (forall|k: InternalEndpoint| #[trigger]
                self.flows@.dom().contains(k) ==> self.slotted(k, t.flows@[k].deadline)) implies #[trigger] t.wf() by {
            assert forall|k: InternalEndpoint| #[trigger] t.flows@.dom().contains(k) implies t.slotted(
                k,
                t.flows@[k].deadline,
            ) by {
                assert(self.flows@.dom().contains(k));
                assert(self.slotted(k, t.flows@[k].deadline));
            }
        }
    }

    /// Constructs a flow table whose timer wheel uses `epoch` as its origin.
    pub fn new(idle_timeout: Duration, epoch: Instant) -> (r: Result<Self, FlowTableError>)
        requires
            epoch.nanos <= LAST_EPOCH,
        ensures
            match r {
                Ok(t) => idle_timeout.nanos >= MIN_IDLE_NANOS && t.wf() && t@ == Map::<
                    InternalEndpoint,
                    Flow<V>,
                >::empty() && t.idle() == idle_timeout && t.epoch() == epoch && t.slots() == 0 && t.undrained() == 0,
                Err(e) => idle_timeout.nanos < MIN_IDLE_NANOS && e == FlowTableError::IdleTimeoutTooShort,
            },
    {
        if idle_timeout.nanos < MIN_IDLE_NANOS {
            return Err(FlowTableError::IdleTimeoutTooShort);
        }
        Ok(UdpFlowTable { idle_timeout, flows: Table::new(), wheel: TimerWheel::new(epoch) })
    }

    pub fn len(&self) -> (n: usize)
        requires
            self.wf(),
        ensures
            n == self@.len(),
            self@.dom().finite(),
    {
        self.flows.len()
    }

    pub fn is_empty(&self) -> (r: bool)
        requires
            self.wf(),
        ensures
            r == (self@ == Map::<InternalEndpoint, Flow<V>>::empty()),
    {
        let n: usize = self.flows.len();
        proof {
            if n == 0 {
                assert(self@.dom() =~= Set::empty());
                assert(self@ =~= Map::<InternalEndpoint, Flow<V>>::empty());
            } else {
                assert(self@.dom().len() != 0);
            }
        }
        n == 0
    }

    pub fn contains(&self, endpoint: &InternalEndpoint) -> (r: bool)
        requires
            self.wf(),
        ensures
            r == self@.dom().contains(*endpoint),
    {
        self.flows.contains_key(endpoint)
    }

    /// The number of slots in the expiry index.
    pub fn index_len(&self) -> (n: u128)
        requires
            self.wf(),
        ensures
            n == self.slots(),
    {
        self.wheel.len()
    }

    /// Returns the live value without refreshing its deadline.
    ///
    /// Callers refresh through [`get_or_insert_with`](Self::get_or_insert_with)
    /// once per packet; refreshing again during lookup would make expiry
    /// depend on how often the path inspected the flow.
    pub fn get_mut(&mut self, endpoint: &InternalEndpoint) -> (r: Option<&mut V>)
        requires
            old(self).wf(),
        ensures
            final(self).wf(),
            final(self).idle() == old(self).idle(),
            final(self).epoch() == old(self).epoch(),
            final(self).slots() == old(self).slots(),
            final(self).undrained() == old(self).undrained(),
            match r {
                Some(v) => old(self)@.dom().contains(*endpoint) && *v == old(self)@[*endpoint].value && final(self)@ == old(self)@.insert(
                    *endpoint,
                    Flow { value: *final(v), deadline: old(self)@[*endpoint].deadline },
                ),
                None => !old(self)@.dom().contains(*endpoint) && final(self)@ == old(self)@,
            },
    {
        proof {
            self.lemma_same_index();
        }
        match self.flows.get_mut(endpoint) {
            Some(flow) => Some(&mut flow.value),
            None => None,
        }
    }

    /// Refreshes a flow, or opens it with what `create` makes. Either way it
    /// expires the idle timeout after `now`.
    ///
    /// Refreshing a deadline adds no slot to the expiry index, unless the clock
    /// ran back and the deadline with it.
    pub fn get_or_insert_with<F: FnOnce() -> V>(&mut self, endpoint: InternalEndpoint, now: Instant, create: F) -> (r: Result<&mut V, FlowTableError>)
        requires
            old(self).wf(),
            create.requires(()),
        ensures
            final(self).wf(),
            final(self).idle() == old(self).idle(),
            final(self).epoch() == old(self).epoch(),
            r is Err <==> now.nanos + old(self).idle().nanos > u128::MAX,
            match r {
                Err(e) => e == FlowTableError::DeadlineOverflow && final(self)@ == old(self)@ && final(self).slots() == old(self).slots()
                    && final(self).undrained() == old(self).undrained(),
                Ok(v) => {
                    &&& final(self)@ == old(self)@.insert(
                        endpoint,
                        Flow {
                            value: *final(v),
                            deadline: Instant { nanos: (now.nanos + old(self).idle().nanos) as u128 },
                        },
                    )
                    &&& old(self)@.dom().contains(endpoint) ==> *v == old(self)@[endpoint].value
                    &&& !old(self)@.dom().contains(endpoint) ==> create.ensures((), *v)
                    &&& final(self).undrained() == ({
                        let second = wheel::second_of(
                            old(self).epoch(),
                            Instant { nanos: (now.nanos + old(self).idle().nanos) as u128 },
                        );
                        if final(self).slots() > old(self).slots() && second < old(self).undrained() {
                            second
                        } else {
                            old(self).undrained()
                        }
                    })
                    &&& final(self).slots() == (if old(self)@.dom().contains(endpoint)
                        && old(self)@[endpoint].deadline.nanos <= now.nanos + old(self).idle().nanos {
                        old(self).slots()
                    } else {
                        old(self).slots() + 1
                    })
                },
            },
    {
        let deadline = match now.checked_add(self.idle_timeout) {
            Some(deadline) => deadline,
            None => return Err(FlowTableError::DeadlineOverflow),
        };
        let ghost was = *self;
        let known: Option<Instant> = match self.flows.get(&endpoint) {
            Some(flow) => Some(flow.deadline),
            None => None,
        };
        let slot: bool = match known {
            Some(before) => deadline.nanos < before.nanos,
            None => true,
        };
        if slot {
            self.wheel.insert(deadline, endpoint);
        }
        if known.is_none() {
            self.flows.insert(endpoint, Flow { value: create(), deadline });
        }
        let ghost mid = *self;
        proof {
            assert forall|s: u64, k: InternalEndpoint| was.wheel.has(s, k) implies #[trigger] mid.wheel.has(s, k) by {}
            assert forall|k: InternalEndpoint| #[trigger] mid.flows@.dom().contains(k) implies mid.slotted(
                k,
                if k == endpoint { deadline } else { mid.flows@[k].deadline },
            ) by {
                let origin = was.wheel.origin();
                if k == endpoint && slot {
                    assert(mid.wheel.has(wheel::second_of(origin, deadline), k));
                } else {
                    assert(was.flows@.dom().contains(k));
                    assert(was.slotted(k, was.flows@[k].deadline));
                    let bound = wheel::second_of(origin, was.flows@[k].deadline);
                    let s = choose|s: u64| s <= bound && #[trigger] was.wheel.has(s, k);
                    assert(mid.wheel.has(s, k));
                    wheel::lemma_second_of(origin, was.flows@[k].deadline, deadline);
                }
            }
            mid.lemma_same_index();
        }
        match self.flows.get_mut(&endpoint) {
            Some(flow) => {
                flow.deadline = deadline;
                Ok(&mut flow.value)
            },
            None => Err(FlowTableError::DeadlineOverflow),
        }
    }

    /// Whether `r` is the instant to look at the table next: the start of the
    /// first second in which a slot may lie.
    pub closed spec fn is_next_deadline(&self, r: Option<Instant>) -> bool {
        exists|due: Option<u64>| #[trigger]
            self.wheel.is_next_due(due) && match due {
                Some(second) => r == Some(
                    Instant { nanos: wheel::start_of(self.epoch(), second) as u128 },
                ),
                None => r is None,
            }
    }

    /// Returns a conservative earliest expiry instant. Wheel slots are hints,
    /// so the result may be early but never late and does not scan live flows.
    pub fn next_deadline(&self) -> (r: Option<Instant>)
        requires
            self.wf(),
        ensures
            self.is_next_deadline(r),
            r is None <==> self.slots() == 0,
            r matches Some(t) ==> t.nanos >= wheel::start_of(self.epoch(), self.undrained()),
            forall|k: InternalEndpoint| #[trigger]
                self@.dom().contains(k) ==> r is Some && r->Some_0.nanos <= self@[k].deadline.nanos,
    {
        let due = self.wheel.next_due();
        let ghost found = due;
        assert(self.wheel.is_next_due(found));
        proof {
            assert forall|k: InternalEndpoint| #[trigger] self@.dom().contains(k) implies due is Some
                && wheel::start_of(self.epoch(), due->Some_0) <= self@[k].deadline.nanos by {
                let deadline = self@[k].deadline;
                assert(self.slotted(k, deadline));
                let bound = wheel::second_of(self.epoch(), deadline);
                let s = choose|s: u64| s <= bound && #[trigger] self.wheel.has(s, k);
                assert(self.wheel.has(s, k));
                wheel::lemma_second_of(self.epoch(), deadline, deadline);
                let second = due->Some_0;
                assert(second * 1_000_000_000 <= bound * 1_000_000_000) by (nonlinear_arith)
                    requires
                        second <= bound,
                ;
            }
        }
        match due {
            Some(second) => {
                let epoch: Instant = self.wheel.epoch();
                proof {
                    assert(second * 1_000_000_000 >= self.undrained() * 1_000_000_000) by (nonlinear_arith)
                        requires
                            second >= self.undrained(),
                    ;
                }
                if second == 0 {
                    Some(Instant { nanos: 0 })
                } else {
                    Some(Instant { nanos: epoch.nanos + second as u128 * NANOS_PER_SEC })
                }
            },
            None => None,
        }
    }

    /// Removes flows rejected by `keep`, returning the number removed.
    /// Stale wheel entries are ignored during the next expiry pass.
    pub fn retain<F: Fn(&InternalEndpoint, &V) -> bool>(&mut self, keep: F) -> (removed: usize)
        requires
            old(self).wf(),
            forall|k: InternalEndpoint| #[trigger]
                old(self)@.dom().contains(k) ==> keep.requires((&k, &old(self)@[k].value)),
        ensures
            final(self).wf(),
            final(self).idle() == old(self).idle(),
            final(self).epoch() == old(self).epoch(),
            final(self).slots() == old(self).slots(),
            final(self).undrained() == old(self).undrained(),
            final(self)@.submap_of(old(self)@),
            forall|k: InternalEndpoint| #[trigger]
                old(self)@.dom().contains(k) ==> keep.ensures(
                    (&k, &old(self)@[k].value),
                    final(self)@.dom().contains(k),
                ),
            removed == old(self)@.len() - final(self)@.len(),
    {
        let before: usize = self.flows.len();
        let ghost was = *self;
        let mut gone: Vec<InternalEndpoint> = Vec::new();
        let mut i: usize = 0;
        proof {
            self.flows.lemma_listed();
        }
        while i < before
            invariant
                *self == was,
                was.wf(),
                before == was.flows.listed().len(),
                i <= before,
                table::distinct(was.flows.listed()),
                forall|k: InternalEndpoint| #[trigger]
                    was@.dom().contains(k) ==> keep.requires((&k, &was@[k].value)),
                forall|g: int|
                    0 <= g < gone@.len() ==> was@.dom().contains(#[trigger] gone@[g]) && keep.ensures(
                        (&gone@[g], &was@[gone@[g]].value),
                        false,
                    ),
                forall|j: int|
                    0 <= j < i ==> gone@.contains((#[trigger] was.flows.listed()[j]).0) || keep.ensures(
                        (&was.flows.listed()[j].0, &was@[was.flows.listed()[j].0].value),
                        true,
                    ),
            decreases before - i,
        {
            let (key, flow) = self.flows.entry(i);
            let key: InternalEndpoint = *key;
            let kept = keep(&key, &flow.value);
            let ghost g0 = gone@;
            if !kept {
                gone.push(key);
                assert(gone@[g0.len() as int] == key);
            }
            proof {
                assert forall|j: int| 0 <= j < i + 1 implies gone@.contains((#[trigger] was.flows.listed()[j]).0)
                    || keep.ensures(
                    (&was.flows.listed()[j].0, &was@[was.flows.listed()[j].0].value),
                    true,
                ) by {
                    if j < i && g0.contains(was.flows.listed()[j].0) {
                        let g = choose|g: int| 0 <= g < g0.len() && g0[g] == was.flows.listed()[j].0;
                        assert(gone@[g] == was.flows.listed()[j].0);
                    }
                }
            }
            i = i + 1;
        }
        let mut d: usize = 0;
        while d < gone.len()
            invariant
                d <= gone@.len(),
                self.wheel == was.wheel,
                self.idle_timeout == was.idle_timeout,
                self.flows.wf(),
                forall|k: InternalEndpoint| #[trigger]
                    self.flows@.dom().contains(k) <==> was.flows@.dom().contains(k) && !gone@.take(
                        d as int,
                    ).contains(k),
                forall|k: InternalEndpoint| #[trigger]
                    self.flows@.dom().contains(k) ==> self.flows@[k] == was.flows@[k],
            decreases gone@.len() - d,
        {
            let key: InternalEndpoint = gone[d];
            let ghost mid = self.flows@;
            let _ = self.flows.remove(&key);
            proof {
                assert(gone@.take(d + 1) =~= gone@.take(d as int).push(key));
                assert forall|k: InternalEndpoint| #[trigger]
                    self.flows@.dom().contains(k) <==> was.flows@.dom().contains(k) && !gone@.take(
                        d + 1,
                    ).contains(k) by {
                    let a = gone@.take(d as int);
                    let b = a.push(key);
                    if a.contains(k) {
                        let g = choose|g: int| 0 <= g < a.len() && a[g] == k;
                        assert(b[g] == k);
                    }
                    assert(b[a.len() as int] == key);
                    if b.contains(k) && !a.contains(k) {
                        let g = choose|g: int| 0 <= g < b.len() && b[g] == k;
                        if g < a.len() {
                            assert(a[g] == k);
                        }
                    }
                }
            }
            d = d + 1;
        }
        let after: usize = self.flows.len();
        proof {
            assert(gone@.take(d as int) =~= gone@);
            assert forall|k: InternalEndpoint| #[trigger] self.flows@.dom().contains(k) implies self.slotted(
                k,
                self.flows@[k].deadline,
            ) by {
                assert(was.flows@.dom().contains(k));
                assert(was.slotted(k, was.flows@[k].deadline));
            }
            assert forall|k: InternalEndpoint| #[trigger] was@.dom().contains(k) implies keep.ensures(
                (&k, &was@[k].value),
                self@.dom().contains(k),
            ) by {
                was.flows.lemma_listed();
                let j = choose|j: int|
                    0 <= j < was.flows.listed().len() && (#[trigger] was.flows.listed()[j]).0 == k;
                if gone@.contains(k) {
                    let g = choose|g: int| 0 <= g < gone@.len() && gone@[g] == k;
                    assert(keep.ensures((&gone@[g], &was@[gone@[g]].value), false));
                }
            }
            was.flows.lemma_listed();
            self.flows.lemma_listed();
            vstd::set_lib::lemma_len_subset(self@.dom(), was@.dom());
        }
        before - after
    }

    /// The flows an expiry pass at `now` evicts: those whose exact deadline has
    /// arrived.
    pub open spec fn evicted_at(&self, now: Instant) -> Set<InternalEndpoint> {
        due_at(self@, now)
    }

    /// Evicts flows whose exact deadline has arrived and returns their values.
    /// Refreshed flows from stale wheel slots are re-bucketed.
    pub fn expire(&mut self, now: Instant) -> (expired: Vec<V>)
        requires
            old(self).wf(),
        ensures
            final(self).wf(),
            final(self).idle() == old(self).idle(),
            final(self).epoch() == old(self).epoch(),
            final(self).slots() <= old(self).slots(),
            final(self).undrained() == (if old(self).undrained() <= wheel::second_of(old(self).epoch(), now) {
                wheel::second_of(old(self).epoch(), now)
            } else {
                old(self).undrained()
            }),
            final(self)@ == old(self)@.remove_keys(old(self).evicted_at(now)),
            exists|keys: Seq<InternalEndpoint>| #[trigger] is_eviction_order(
                keys,
                old(self)@,
                old(self).evicted_at(now),
                expired@,
            ),
    {
        let ghost was = *self;
        let ghost horizon = wheel::second_of(was.epoch(), now);
        let mut surfaced: Vec<InternalEndpoint> = Vec::new();
        self.wheel.take_due(now, &mut surfaced);
        let mut expired: Vec<V> = Vec::new();
        let ghost mut keys: Seq<InternalEndpoint> = Seq::empty();
        let mut i: usize = 0;
        proof {
            assert(self.flows@ =~= was.flows@.remove_keys(keys.to_set()));
            assert(surfaced@.skip(0) =~= surfaced@);
            assert forall|k: InternalEndpoint| #[trigger] self.flows@.dom().contains(k) implies self.slotted(
                k,
                self.flows@[k].deadline,
            ) || surfaced@.skip(0).contains(k) by {
                assert(was.slotted(k, was.flows@[k].deadline));
                let bound = wheel::second_of(was.wheel.origin(), was.flows@[k].deadline);
                let s = choose|s: u64| s <= bound && #[trigger] was.wheel.has(s, k);
                if s <= horizon {
                    assert(was.wheel.due(horizon, k));
                    assert(wheel::given(surfaced@, k));
                } else {
                    assert(self.wheel.has(s, k));
                }
            }
        }
        while i < surfaced.len()
            invariant
                was.wf(),
                horizon == wheel::second_of(was.epoch(), now),
                i <= surfaced@.len(),
                self.flows.wf(),
                self.wheel.wf(),
                self.idle_timeout == was.idle_timeout,
                self.wheel.origin() == was.wheel.origin(),
                self.wheel.undrained() == (if was.wheel.undrained() <= horizon {
                    horizon
                } else {
                    was.wheel.undrained()
                }),
                was.wheel.undrained() > horizon ==> surfaced@.len() == 0,
                self.wheel.slots() + (surfaced@.len() - i) <= was.wheel.slots(),
                forall|e: InternalEndpoint| #[trigger]
                    wheel::given(surfaced@, e) <==> was.wheel.due(horizon, e),
                self.flows@ =~= was.flows@.remove_keys(keys.to_set()),
                keys.no_duplicates(),
                expired@.len() == keys.len(),
                forall|j: int|
                    0 <= j < keys.len() ==> was.evicted_at(now).contains(#[trigger] keys[j]) && expired@[j]
                        == was@[keys[j]].value,
                forall|j: int|
                    0 <= j < i && self.flows@.dom().contains(#[trigger] surfaced@[j])
                        ==> was.flows@[surfaced@[j]].deadline.nanos > now.nanos,
                forall|k: InternalEndpoint| #[trigger]
                    self.flows@.dom().contains(k) ==> self.slotted(k, self.flows@[k].deadline)
                        || surfaced@.skip(i as int).contains(k),
            decreases surfaced@.len() - i,
        {
            let endpoint: InternalEndpoint = surfaced[i];
            let ghost mid = *self;
            let ghost rest = surfaced@.skip(i as int);
            let ghost next = surfaced@.skip(i + 1);
            proof {
                assert(surfaced@[i as int] == endpoint);
                assert(wheel::given(surfaced@, endpoint));
                assert forall|k: InternalEndpoint| rest.contains(k) && k != endpoint implies #[trigger]
                    next.contains(k) by {
                    let j = choose|j: int| 0 <= j < rest.len() && rest[j] == k;
                    assert(next[j - 1] == k);
                }
            }
            let deadline: Option<Instant> = match self.flows.get(&endpoint) {
                Some(flow) => Some(flow.deadline),
                None => None,
            };
            match deadline {
                Some(deadline) => {
                    if deadline.nanos <= now.nanos {
                        match self.flows.remove(&endpoint) {
                            Some(flow) => {
                                expired.push(flow.value);
                            },
                            None => {},
                        }
                        proof {
                            let before = keys;
                            assert(!before.to_set().contains(endpoint));
                            keys = keys.push(endpoint);
                            assert(keys.to_set() =~= before.to_set().insert(endpoint)) by {
                                broadcast use vstd::seq_lib::group_seq_properties;

                            }
                            assert(keys.no_duplicates());
                        }
                    } else {
                        // A stale slot is harmless; the exact deadline governs.
                        proof {
                            wheel::lemma_second_of(was.epoch(), now, deadline);
                        }
                        self.wheel.insert(deadline, endpoint);
                        proof {
                            assert(self.wheel.has(wheel::second_of(self.wheel.origin(), deadline), endpoint));
                        }
                    }
                },
                None => {},
            }
            proof {
                assert forall|s: u64, k: InternalEndpoint| mid.wheel.has(s, k) implies #[trigger] self.wheel.has(
                    s,
                    k,
                ) by {}
                assert forall|k: InternalEndpoint| #[trigger] self.flows@.dom().contains(k) implies self.slotted(
                    k,
                    self.flows@[k].deadline,
                ) || next.contains(k) by {
                    assert(mid.flows@.dom().contains(k));
                    if mid.slotted(k, mid.flows@[k].deadline) {
                        let bound = wheel::second_of(mid.wheel.origin(), mid.flows@[k].deadline);
                        let s = choose|s: u64| s <= bound && #[trigger] mid.wheel.has(s, k);
                        assert(self.wheel.has(s, k));
                    }
                }
            }
            i = i + 1;
        }
        proof {
            assert(surfaced@.skip(i as int) =~= Seq::<InternalEndpoint>::empty());
            assert forall|k: InternalEndpoint| was.evicted_at(now).contains(k) implies #[trigger] keys.contains(k) by {
                assert(was.flows@.dom().contains(k));
                assert(was.slotted(k, was.flows@[k].deadline));
                wheel::lemma_second_of(was.epoch(), was.flows@[k].deadline, now);
                let bound = wheel::second_of(was.wheel.origin(), was.flows@[k].deadline);
                let s = choose|s: u64| s <= bound && #[trigger] was.wheel.has(s, k);
                assert(was.wheel.has(s, k) && s <= horizon);
                assert(was.wheel.due(horizon, k));
                assert(wheel::given(surfaced@, k));
                let j = choose|j: int| 0 <= j < surfaced@.len() && surfaced@[j] == k;
                if self.flows@.dom().contains(surfaced@[j]) {
                }
                assert(!self.flows@.dom().contains(k));
                assert(keys.to_set().contains(k));
            }
            assert(keys.to_set() =~= was.evicted_at(now)) by {
                assert forall|k: InternalEndpoint| keys.to_set().contains(k) implies was.evicted_at(
                    now,
                ).contains(k) by {
                    let j = choose|j: int| 0 <= j < keys.len() && keys[j] == k;
                    assert(was.evicted_at(now).contains(keys[j]));
                }
            }
            assert(self@ =~= was@.remove_keys(was.evicted_at(now)));
            assert(is_eviction_order(keys, was@, was.evicted_at(now), expired@));
        }
        expired
    }
}

/// Whether `values` are those of the flows `keys`, in order, and `keys` are the
/// evicted flows, each once.
pub open spec fn is_eviction_order<V>(keys: Seq<InternalEndpoint>, flows: Map<InternalEndpoint, Flow<V>>, evicted: Set<InternalEndpoint>, values: Seq<V>) -> bool {
    &&& keys.no_duplicates()
    &&& keys.to_set() == evicted
    &&& values.len() == keys.len()
    &&& forall|i: int| 0 <= i < keys.len() ==> #[trigger] values[i] == flows[keys[i]].value
}

/// The flows whose deadline has arrived.
pub open spec fn due_at<V>(flows: Map<InternalEndpoint, Flow<V>>, now: Instant) -> Set<InternalEndpoint> {
    Set::new(|k: InternalEndpoint| flows.dom().contains(k) && flows[k].deadline.nanos <= now.nanos)
}

/// A pass more changes nothing: two passes leave the flows that the later one
/// leaves alone, so it does not matter how often a table is looked at.
pub proof fn passes_add_up<V>(flows: Map<InternalEndpoint, Flow<V>>, first: Instant, second: Instant)
    requires
        first.nanos <= second.nanos,
    ensures
        ({
            let left = flows.remove_keys(due_at(flows, first));
            left.remove_keys(due_at(left, second)) == flows.remove_keys(due_at(flows, second))
        }),
{
    let left = flows.remove_keys(due_at(flows, first));
    assert(left.remove_keys(due_at(left, second)) =~= flows.remove_keys(due_at(flows, second)));
}

/// No pass evicts a flow before its deadline, whatever slots it left behind:
/// a stale slot never evicts a refreshed flow.
pub proof fn no_flow_is_evicted_early<V>(t: UdpFlowTable<V>, k: InternalEndpoint, now: Instant)
    requires
        t@.dom().contains(k),
        t@[k].deadline.nanos > now.nanos,
    ensures
        t@.remove_keys(t.evicted_at(now)).dom().contains(k),
{
}

/// A queue takes datagrams up to its limit, behind those it holds, and drops and counts
/// every further one, leaving those it holds as they are.
pub proof fn a_full_queue_drops_the_newest<T>(b: &mut DatagramBuffer<T>, datagram: T, r: SendOutcome)
    requires
        old(b).wf(),
        call_ensures(DatagramBuffer::<T>::try_send, (b, datagram), r),
    ensures
        r == SendOutcome::Buffered <==> old(b)@.len() < old(b).limit(),
        r == SendOutcome::Buffered ==> final(b)@.len() == old(b)@.len() + 1 && final(b)@.last() == datagram
            && final(b)@.drop_last() == old(b)@ && final(b).drops() == old(b).drops(),
        r == SendOutcome::Dropped ==> final(b)@ == old(b)@,
        r == SendOutcome::Dropped && old(b).drops() < u64::MAX ==> final(b).drops() == old(b).drops() + 1,
{
    assert(old(b)@.push(datagram).drop_last() =~= old(b)@);
}

/// A queue gives its datagrams oldest first, and nothing exactly where it is empty.
pub proof fn a_queue_gives_the_oldest_first<T>(b: &mut DatagramBuffer<T>, r: Option<T>)
    requires
        old(b).wf(),
        call_ensures(DatagramBuffer::<T>::recv, (b,), r),
    ensures
        r is None <==> old(b)@.len() == 0,
        r matches Some(t) ==> seq![t] + final(b)@ == old(b)@,
        final(b).drops() == old(b).drops(),
{
    if r is Some {
        assert(seq![r->0] + final(b)@ =~= old(b)@);
    }
}

/// A table is made exactly with an idle timeout of at least 120 seconds (RFC 4787).
pub proof fn a_table_keeps_idle_flows_two_minutes<V>(
    idle_timeout: Duration,
    epoch: Instant,
    r: Result<UdpFlowTable<V>, FlowTableError>,
)
    requires
        epoch.nanos <= LAST_EPOCH,
        call_ensures(UdpFlowTable::<V>::new, (idle_timeout, epoch), r),
    ensures
        r is Ok <==> idle_timeout.nanos >= 120 * 1_000_000_000,
        r matches Ok(t) ==> t@ == Map::<InternalEndpoint, Flow<V>>::empty() && t.idle() == idle_timeout,
        r matches Err(e) ==> e == FlowTableError::IdleTimeoutTooShort,
{
}

/// A pass takes out exactly the flows whose deadline has arrived, and hands out each
/// one's value once; every other flow stays, value and deadline.
pub proof fn a_pass_takes_out_what_has_expired<V>(
    t: &mut UdpFlowTable<V>,
    now: Instant,
    expired: Vec<V>,
    k: InternalEndpoint,
)
    requires
        old(t).wf(),
        call_ensures(UdpFlowTable::<V>::expire, (t, now), expired),
    ensures
        final(t)@.dom().contains(k) <==> old(t)@.dom().contains(k) && old(t)@[k].deadline.nanos > now.nanos,
        final(t)@.dom().contains(k) ==> final(t)@[k] == old(t)@[k],
        old(t)@.dom().contains(k) && old(t)@[k].deadline.nanos <= now.nanos ==> expired@.contains(old(t)@[k].value),
        final(t).idle() == old(t).idle(),
{
    let evicted = old(t).evicted_at(now);
    let keys = choose|keys: Seq<InternalEndpoint>| #[trigger] is_eviction_order(keys, old(t)@, evicted, expired@);
    if old(t)@.dom().contains(k) && old(t)@[k].deadline.nanos <= now.nanos {
        assert(evicted.contains(k));
        assert(keys.to_set().contains(k));
        let i = choose|i: int| 0 <= i < keys.len() && keys[i] == k;
        assert(expired@[i] == old(t)@[keys[i]].value);
    }
}

} // verus!
