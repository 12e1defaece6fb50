//! The reassembler: pending datagrams by key, and an index of when each
//! expires.

use vstd::prelude::*;
#[allow(unused_imports)]
use crate::l3::fragment;
#[allow(unused_imports)]
use crate::l3::pending;
#[allow(unused_imports)]
use crate::l3::reassembly;
#[allow(unused_imports)]
use crate::table;

use crate::addr::IpAddr;
use crate::clock::Duration;
use crate::clock::Instant;
use crate::l3::fragment::Fragment;
use crate::l3::fragment::ReassembledPacket;
use crate::l3::pending::Partial;
use crate::l3::pending::Pending;
#[allow(unused_imports)]
use crate::l3::reassembly::Piece;
use crate::l3::reassembly::{Verdict, MAX_DATAGRAM_BYTES};
use crate::table::Key;
use crate::table::Table;
#[allow(unused_imports)]
use crate::wire;

verus! {

#[derive(Debug, PartialEq, Eq)]
pub enum PushOutcome {
    /// Fragment accepted; more data is required.
    Pending,
    /// Every block arrived exactly once.
    Complete(ReassembledPacket),
    /// Fragment rejected or datagram poisoned.
    Discarded,
}

/// What tells datagrams apart.
#[derive(Clone, Copy, Debug, PartialEq, Eq, Hash, Structural)]
pub struct DatagramKey {
    pub source: IpAddr,
    pub destination: IpAddr,
    pub identification: u32,
    pub protocol: u8,
}

impl Key for DatagramKey {
    fn same(&self, other: &Self) -> bool {
        *self == *other
    }
}

/// The datagram that a fragment belongs to.
pub open spec fn key_of(f: Fragment) -> DatagramKey {
    DatagramKey {
        source: f.source,
        destination: f.destination,
        identification: f.identification,
        protocol: f.protocol,
    }
}

/// Pending datagrams and counters, as contracts see them.
#[verifier::ext_equal]
pub struct Assembly {
    pub pending: Map<DatagramKey, Partial>,
    pub discarded: u64,
    pub timeout: Duration,
    pub limit: usize,
}

/// What a fragment leads to.
pub enum Outcome {
    Pending,
    Complete(Seq<u8>),
    Discarded,
}

/// Counts one more, up to the counter's end.
pub open spec fn one_more(n: u64) -> u64 {
    if n == u64::MAX {
        n
    } else {
        (n + 1) as u64
    }
}

/// Whether an expiry pass at `now` evicts a datagram: its own deadline has
/// arrived.
pub open spec fn is_expired(p: Partial, now: Instant) -> bool {
    p.deadline.nanos <= now.nanos
}

/// A datagram with a new deadline. Its slot stays, unless the clock ran back and
/// the deadline comes before it.
pub open spec fn refreshed(p: Partial, deadline: Instant) -> Partial {
    Partial {
        deadline,
        slot: if deadline.nanos < p.slot.nanos {
            deadline
        } else {
            p.slot
        },
        ..p
    }
}

/// A datagram after an expiry pass that leaves it: filed under its deadline
/// where its slot had surfaced.
pub open spec fn refiled(p: Partial, now: Instant) -> Partial {
    if p.slot.nanos <= now.nanos {
        Partial { slot: p.deadline, ..p }
    } else {
        p
    }
}

/// The pending datagrams after an expiry pass.
pub open spec fn after_expiry(pending: Map<DatagramKey, Partial>, now: Instant) -> Map<DatagramKey, Partial> {
    Map::new(
        |k: DatagramKey| pending.dom().contains(k) && !is_expired(pending[k], now),
        |k: DatagramKey| refiled(pending[k], now),
    )
}

/// When a datagram that gets a fragment at `now` expires. A clock that cannot
/// reach that far is not a real one; expiring at `now` is the conservative
/// answer.
pub open spec fn deadline_from(now: Instant, timeout: Duration) -> Instant {
    if now.nanos + timeout.nanos > u128::MAX {
        now
    } else {
        Instant { nanos: (now.nanos + timeout.nanos) as u128 }
    }
}

/// The pending datagrams that a fragment is held against: where it opens a new
/// one and there is no room, those that an expiry pass leaves.
pub open spec fn with_room(a: Assembly, k: DatagramKey, now: Instant) -> Map<DatagramKey, Partial> {
    if !a.pending.dom().contains(k) && a.pending.len() == a.limit {
        after_expiry(a.pending, now)
    } else {
        a.pending
    }
}

/// What pushing a fragment does.
pub open spec fn pushed(a: Assembly, f: Fragment, now: Instant) -> (Assembly, Outcome) {
    let piece = reassembly::piece_of(f);
    let k = key_of(f);
    let room = with_room(a, k, now);
    let lost = one_more(a.discarded);
    if !piece.admissible() {
        (Assembly { discarded: lost, ..a }, Outcome::Discarded)
    } else if !room.dom().contains(k) && room.len() == a.limit {
        (Assembly { pending: room, discarded: lost, ..a }, Outcome::Discarded)
    } else {
        let deadline = deadline_from(now, a.timeout);
        let p = if room.dom().contains(k) {
            refreshed(room[k], deadline)
        } else {
            Partial { pieces: Seq::empty(), poisoned: false, deadline, slot: deadline }
        };
        if p.poisoned {
            (Assembly { pending: room.insert(k, p), discarded: lost, ..a }, Outcome::Discarded)
        } else {
            let pieces = p.pieces.push(piece);
            match reassembly::verdict_on(p.pieces, piece) {
                Verdict::Poisoned => (
                    Assembly {
                        pending: room.insert(k, Partial { pieces: Seq::empty(), poisoned: true, ..p }),
                        discarded: lost,
                        ..a
                    },
                    Outcome::Discarded,
                ),
                Verdict::Kept => (
                    Assembly { pending: room.insert(k, Partial { pieces, ..p }), ..a },
                    Outcome::Pending,
                ),
                Verdict::Whole => {
                    let first = reassembly::first_piece(pieces);
                    match fragment::rebuilt(
                        first.headers,
                        first.next_header_at,
                        k.protocol,
                        reassembly::assembled(pieces),
                    ) {
                        Some(packet) => (
                            Assembly { pending: room.remove(k), ..a },
                            Outcome::Complete(packet),
                        ),
                        None => (
                            Assembly { pending: room.remove(k), discarded: lost, ..a },
                            Outcome::Discarded,
                        ),
                    }
                },
            }
        }
    }
}

/// Whether an executable outcome is what a contract's outcome says.
pub open spec fn is_outcome(r: PushOutcome, o: Outcome) -> bool {
    match o {
        Outcome::Pending => r is Pending,
        Outcome::Complete(packet) => r matches PushOutcome::Complete(p) && p@ == packet,
        Outcome::Discarded => r is Discarded,
    }
}

/// The pending datagrams of a table, each by its view.
pub open spec fn partials(t: Map<DatagramKey, Pending>) -> Map<DatagramKey, Partial> {
    t.map_values(|p: Pending| p@)
}

/// Whether a list of slots is in order of time.
pub open spec fn in_order(slots: Seq<(Instant, DatagramKey)>) -> bool {
    forall|i: int, j: int|
        #![trigger slots[i], slots[j]]
        0 <= i <= j < slots.len() ==> slots[i].0.nanos <= slots[j].0.nanos
}

/// Whether no key has two slots.
pub open spec fn one_each(slots: Seq<(Instant, DatagramKey)>) -> bool {
    forall|i: int, j: int|
        #![trigger slots[i], slots[j]]
        0 <= i < j < slots.len() ==> slots[i].1 != slots[j].1
}

/// Whether every slot is that of a pending datagram, under its time.
pub open spec fn slots_are_pending(slots: Seq<(Instant, DatagramKey)>, pending: Map<DatagramKey, Partial>) -> bool {
    forall|i: int|
        0 <= i < slots.len() ==> pending.dom().contains((#[trigger] slots[i]).1) && pending[slots[i].1].slot
            == slots[i].0
}

/// Whether a key has a slot.
pub open spec fn has_slot(slots: Seq<(Instant, DatagramKey)>, k: DatagramKey) -> bool {
    exists|i: int| 0 <= i < slots.len() && (#[trigger] slots[i]).1 == k
}

/// Bounded reassembly. Its view is the pending datagrams and counters.
pub struct Reassembler {
    timeout: Duration,
    max_pending: usize,
    pending: Table<DatagramKey, Pending>,
    /// One slot per pending datagram, earliest first.
    expirations: Vec<(Instant, DatagramKey)>,
    discarded: u64,
}

impl View for Reassembler {
    type V = Assembly;

    closed spec fn view(&self) -> Assembly {
        Assembly {
            pending: partials(self.pending@),
            discarded: self.discarded,
            timeout: self.timeout,
            limit: self.max_pending,
        }
    }
}

/// Files a slot behind those of the same time or earlier.
fn file_slot(slots: &mut Vec<(Instant, DatagramKey)>, at: Instant, key: DatagramKey)
    requires
        in_order(old(slots)@),
        one_each(old(slots)@),
        !has_slot(old(slots)@, key),
    ensures
        in_order(final(slots)@),
        one_each(final(slots)@),
        forall|k: DatagramKey| #[trigger]
            has_slot(final(slots)@, k) <==> has_slot(old(slots)@, k) || k == key,
        forall|i: int|
            0 <= i < final(slots)@.len() ==> #[trigger] final(slots)@[i] == (at, key) || old(slots)@.contains(
                final(slots)@[i],
            ),
        final(slots)@.len() == old(slots)@.len() + 1,
{
    let ghost before = slots@;
    let mut i: usize = slots.len();
    while i > 0 && slots[i - 1].0.nanos > at.nanos
        invariant
            slots@ == before,
            i <= before.len(),
            in_order(before),
            forall|j: int| i <= j < before.len() ==> (#[trigger] before[j]).0.nanos > at.nanos,
        decreases i,
    {
        i = i - 1;
    }
    slots.insert(i, (at, key));
    proof {
        let after = slots@;
        let n = i as int;
        assert(after =~= before.take(n) + seq![(at, key)] + before.skip(n));
        assert forall|a: int, b: int|
            #![trigger after[a], after[b]]
            0 <= a <= b < after.len() implies after[a].0.nanos <= after[b].0.nanos by {
            if a < n {
                assert(after[a] == before[a]);
                if n > 0 {
                    assert(before[a].0.nanos <= before[n - 1].0.nanos);
                }
            } else if a > n {
                assert(after[a] == before[a - 1]);
            }
            if b < n {
                assert(after[b] == before[b]);
            } else if b > n {
                assert(after[b] == before[b - 1]);
            }
        }
        assert forall|a: int, b: int|
            #![trigger after[a], after[b]]
            0 <= a < b < after.len() implies after[a].1 != after[b].1 by {
            if a < n {
                assert(after[a] == before[a]);
            } else if a > n {
                assert(after[a] == before[a - 1]);
            }
            if b < n {
                assert(after[b] == before[b]);
            } else if b > n {
                assert(after[b] == before[b - 1]);
            }
            if a == n {
                assert(has_slot(before, before[b - 1].1));
            }
            if b == n {
                assert(has_slot(before, before[a].1));
            }
        }
        assert forall|k: DatagramKey| #[trigger] has_slot(after, k) <==> has_slot(before, k) || k == key by {
            if has_slot(before, k) {
                let j = choose|j: int| 0 <= j < before.len() && (#[trigger] before[j]).1 == k;
                if j < n {
                    assert(after[j].1 == k);
                } else {
                    assert(after[j + 1].1 == k);
                }
            }
            assert(after[n].1 == key);
            if has_slot(after, k) {
                let j = choose|j: int| 0 <= j < after.len() && (#[trigger] after[j]).1 == k;
                if j < n {
                    assert(before[j].1 == k);
                } else if j > n {
                    assert(before[j - 1].1 == k);
                }
            }
        }
        assert forall|j: int| 0 <= j < after.len() implies #[trigger] after[j] == (at, key) || before.contains(
            after[j],
        ) by {
            if j < n {
                assert(after[j] == before[j]);
            } else if j > n {
                assert(after[j] == before[j - 1]);
            }
        }
    }
}

/// Takes a key's slot out.
fn forget_slot(slots: &mut Vec<(Instant, DatagramKey)>, key: &DatagramKey)
    requires
        in_order(old(slots)@),
        one_each(old(slots)@),
    ensures
        in_order(final(slots)@),
        one_each(final(slots)@),
        forall|k: DatagramKey| #[trigger]
            has_slot(final(slots)@, k) <==> has_slot(old(slots)@, k) && k != *key,
        forall|i: int|
            0 <= i < final(slots)@.len() ==> old(slots)@.contains(#[trigger] final(slots)@[i]),
        has_slot(old(slots)@, *key) ==> final(slots)@.len() == old(slots)@.len() - 1,
{
    let ghost before = slots@;
    let mut i: usize = 0;
    while i < slots.len()
        invariant
            slots@ == before,
            before == old(slots)@,
            i <= before.len(),
            in_order(before),
            one_each(before),
            forall|j: int| 0 <= j < i ==> (#[trigger] before[j]).1 != *key,
        decreases before.len() - i,
    {
        if slots[i].1 == *key {
            let _ = slots.remove(i);
            proof {
                let after = slots@;
                let n = i as int;
                assert(after =~= before.take(n) + before.skip(n + 1));
                assert forall|a: int| 0 <= a < after.len() implies #[trigger] after[a] == before[if a < n {
                    a
                } else {
                    a + 1
                }] by {}
                assert forall|k: DatagramKey| #[trigger] has_slot(after, k) <==> has_slot(before, k) && k != *key by {
                    if has_slot(before, k) && k != *key {
                        let j = choose|j: int| 0 <= j < before.len() && (#[trigger] before[j]).1 == k;
                        if j < n {
                            assert(after[j].1 == k);
                        } else {
                            assert(after[j - 1].1 == k);
                        }
                    }
                    if has_slot(after, k) {
                        let a = choose|a: int| 0 <= a < after.len() && (#[trigger] after[a]).1 == k;
                        let j = if a < n {
                            a
                        } else {
                            a + 1
                        };
                        assert(before[j].1 == k);
                        if a < n {
                            assert(before[a].1 != before[n].1);
                        } else {
                            assert(before[n].1 != before[a + 1].1);
                        }
                    }
                }
                assert forall|a: int, b: int|
                    #![trigger after[a], after[b]]
                    0 <= a < b < after.len() implies after[a].1 != after[b].1 by {
                    let x = if a < n {
                        a
                    } else {
                        a + 1
                    };
                    let y = if b < n {
                        b
                    } else {
                        b + 1
                    };
                    assert(before[x].1 != before[y].1);
                }
                assert forall|a: int, b: int|
                    #![trigger after[a], after[b]]
                    0 <= a <= b < after.len() implies after[a].0.nanos <= after[b].0.nanos by {
                    let x = if a < n {
                        a
                    } else {
                        a + 1
                    };
                    let y = if b < n {
                        b
                    } else {
                        b + 1
                    };
                    assert(before[x].0.nanos <= before[y].0.nanos);
                }
                assert forall|a: int| 0 <= a < after.len() implies before.contains(#[trigger] after[a]) by {
                    let x = if a < n {
                        a
                    } else {
                        a + 1
                    };
                    assert(after[a] == before[x]);
                }
            }
            return;
        }
        i = i + 1;
    }
}

impl Reassembler {
    /// The datagrams are within the limit, and the index holds one slot per
    /// datagram, no later than its deadline, earliest first.
    pub closed spec fn wf(&self) -> bool {
        &&& self.pending.wf()
        &&& self.max_pending > 0
        &&& self.pending@.dom().finite()
        &&& self.pending@.len() <= self.max_pending
        &&& forall|k: DatagramKey| #[trigger]
            self.pending@.dom().contains(k) ==> self.pending@[k].wf() && has_slot(self.expirations@, k)
                && self.pending@[k]@.slot.nanos <= self.pending@[k]@.deadline.nanos
        &&& self.index_ok()
    }

    spec fn index_ok(&self) -> bool {
        &&& in_order(self.expirations@)
        &&& one_each(self.expirations@)
        &&& slots_are_pending(self.expirations@, partials(self.pending@))
    }

    /// Slots in the expiry index.
    pub closed spec fn slots(&self) -> nat {
        self.expirations@.len()
    }

    pub fn new(timeout: Duration, max_pending: usize) -> (r: Self)
        requires
            max_pending > 0,
        ensures
            r.wf(),
            r@ == (Assembly { pending: Map::empty(), discarded: 0, timeout, limit: max_pending }),
            r.slots() == 0,
    {
        let r = Reassembler {
            timeout,
            max_pending,
            pending: Table::new(),
            expirations: Vec::new(),
            discarded: 0,
        };
        proof {
            r.pending.lemma_listed();
            assert(r@.pending =~= Map::<DatagramKey, Partial>::empty());
        }
        r
    }

    pub fn len(&self) -> (n: usize)
        requires
            self.wf(),
        ensures
            n == self@.pending.len(),
            n <= self@.limit,
    {
        proof {
            assert(self@.pending.dom() =~= self.pending@.dom());
        }
        self.pending.len()
    }

    pub fn is_empty(&self) -> (r: bool)
        requires
            self.wf(),
        ensures
            r == (self@.pending.len() == 0),
    {
        self.len() == 0
    }

    pub fn discarded(&self) -> (n: u64)
        ensures
            n == self@.discarded,
    {
        self.discarded
    }

    /// The number of slots in the expiry index.
    pub fn index_len(&self) -> (n: usize)
        requires
            self.wf(),
        ensures
            n == self.slots(),
            n == self@.pending.len(),
    {
        proof {
            self.lemma_one_slot_per_datagram();
        }
        self.expirations.len()
    }

    /// There is one slot per pending datagram, neither more nor fewer.
    pub proof fn lemma_one_slot_per_datagram(&self)
        requires
            self.wf(),
        ensures
            self.slots() == self@.pending.len(),
    {
        let slots = self.expirations@;
        let keys = slots.map_values(|s: (Instant, DatagramKey)| s.1);
        assert(keys.no_duplicates()) by {
            assert forall|i: int, j: int| 0 <= i < keys.len() && 0 <= j < keys.len() && i != j implies keys[i]
                != keys[j] by {
                if i < j {
                    assert(slots[i].1 != slots[j].1);
                } else {
                    assert(slots[j].1 != slots[i].1);
                }
            }
        }
        keys.unique_seq_to_set();
        assert(keys.to_set() =~= self@.pending.dom()) by {
            assert forall|k: DatagramKey| keys.to_set().contains(k) implies self@.pending.dom().contains(k) by {
                let i = choose|i: int| 0 <= i < keys.len() && keys[i] == k;
                assert(self@.pending.dom().contains(slots[i].1));
            }
            assert forall|k: DatagramKey| self@.pending.dom().contains(k) implies keys.to_set().contains(k) by {
                assert(self.pending@.dom().contains(k));
                let i = choose|i: int| 0 <= i < slots.len() && (#[trigger] slots[i]).1 == k;
                assert(keys[i] == k);
            }
        }
    }

    /// Whether `t` is the earliest slot.
    pub open spec fn is_earliest(&self, t: Instant) -> bool {
        &&& forall|k: DatagramKey| #[trigger] self@.pending.dom().contains(k) ==> t.nanos <= self@.pending[k].slot.nanos
        &&& exists|k: DatagramKey| #[trigger] self@.pending.dom().contains(k) && self@.pending[k].slot == t
    }

    /// Returns the earliest indexed deadline.
    ///
    /// A refreshed entry may be reported early; [`Self::expire`] validates its
    /// authoritative deadline before evicting it.
    pub fn next_deadline(&self) -> (r: Option<Instant>)
        requires
            self.wf(),
        ensures
            match r {
                Some(t) => self.is_earliest(t),
                None => self@.pending.len() == 0,
            },
            forall|k: DatagramKey| #[trigger]
                self@.pending.dom().contains(k) ==> r is Some && r->Some_0.nanos
                    <= self@.pending[k].deadline.nanos,
    {
        proof {
            self.lemma_one_slot_per_datagram();
        }
        if self.expirations.len() == 0 {
            proof {
                assert forall|k: DatagramKey| #[trigger] self@.pending.dom().contains(k) implies false by {
                    assert(self.pending@.dom().contains(k));
                }
            }
            return None;
        }
        let t: Instant = self.expirations[0].0;
        proof {
            let slots = self.expirations@;
            assert forall|k: DatagramKey| #[trigger] self@.pending.dom().contains(k) implies t.nanos
                <= self@.pending[k].slot.nanos by {
                assert(self.pending@.dom().contains(k));
                let i = choose|i: int| 0 <= i < slots.len() && (#[trigger] slots[i]).1 == k;
                assert(slots[0].0.nanos <= slots[i].0.nanos);
            }
            assert forall|k: DatagramKey| #[trigger] self@.pending.dom().contains(k) implies t.nanos
                <= self@.pending[k].deadline.nanos by {
                assert(self.pending@.dom().contains(k));
                assert(t.nanos <= self@.pending[k].slot.nanos);
            }
            assert(self@.pending.dom().contains(slots[0].1));
        }
        Some(t)
    }

    /// Evicts every pending datagram whose real deadline has arrived, and
    /// re-files the slots of those refreshed since their slot was written.
    pub fn expire(&mut self, now: Instant) -> (evicted: usize)
        requires
            old(self).wf(),
        ensures
            final(self).wf(),
            final(self)@ == (Assembly { pending: after_expiry(old(self)@.pending, now), ..old(self)@ }),
            evicted == old(self)@.pending.len() - final(self)@.pending.len(),
    {
        let ghost was = *self;
        let ghost all = self.expirations@;
        let before: usize = self.pending.len();
        let mut n: usize = 0;
        while n < self.expirations.len() && self.expirations[n].0.nanos <= now.nanos
            invariant
                *self == was,
                all == was.expirations@,
                n <= all.len(),
                forall|j: int| 0 <= j < n ==> (#[trigger] all[j]).0.nanos <= now.nanos,
            decreases all.len() - n,
        {
            n = n + 1;
        }
        let mut due: Vec<(Instant, DatagramKey)> = self.expirations.split_off(n);
        std::mem::swap(&mut due, &mut self.expirations);
        proof {
            assert(due@ == all.take(n as int));
            assert(self.expirations@ == all.skip(n as int));
            assert forall|j: int| 0 <= j < self.expirations@.len() implies (#[trigger] self.expirations@[j]).0.nanos
                > now.nanos by {
                assert(self.expirations@[j] == all[n + j]);
                assert(all[n as int].0.nanos > now.nanos);
                assert(all[n as int].0.nanos <= all[n + j].0.nanos);
            }
            assert(in_order(self.expirations@)) by {
                assert forall|a: int, b: int|
                    #![trigger self.expirations@[a], self.expirations@[b]]
                    0 <= a <= b < self.expirations@.len() implies self.expirations@[a].0.nanos
                    <= self.expirations@[b].0.nanos by {
                    assert(all[n + a].0.nanos <= all[n + b].0.nanos);
                }
            }
            assert(one_each(self.expirations@)) by {
                assert forall|a: int, b: int|
                    #![trigger self.expirations@[a], self.expirations@[b]]
                    0 <= a < b < self.expirations@.len() implies self.expirations@[a].1
                    != self.expirations@[b].1 by {
                    assert(all[n + a].1 != all[n + b].1);
                }
            }
            assert forall|k: DatagramKey| #[trigger] has_slot(self.expirations@, k) <==> has_slot(all, k)
                && !has_slot(due@, k) by {
                if has_slot(self.expirations@, k) {
                    let a = choose|a: int|
                        0 <= a < self.expirations@.len() && (#[trigger] self.expirations@[a]).1 == k;
                    assert(all[n + a].1 == k);
                    if has_slot(due@, k) {
                        let b = choose|b: int| 0 <= b < due@.len() && (#[trigger] due@[b]).1 == k;
                        assert(all[b].1 != all[n + a].1);
                    }
                }
                if has_slot(all, k) && !has_slot(due@, k) {
                    let a = choose|a: int| 0 <= a < all.len() && (#[trigger] all[a]).1 == k;
                    if a < n {
                        assert(due@[a].1 == k);
                    } else {
                        assert(self.expirations@[a - n].1 == k);
                    }
                }
            }
            assert forall|j: int| 0 <= j < self.expirations@.len() implies self.pending@.dom().contains(
                (#[trigger] self.expirations@[j]).1,
            ) && self.pending@[self.expirations@[j].1]@.slot == self.expirations@[j].0 by {
                assert(self.expirations@[j] == all[n + j]);
                assert(partials(was.pending@).dom().contains(all[n + j].1));
            }
            assert(due@.take(0) =~= Seq::<(Instant, DatagramKey)>::empty());
            assert(due@.skip(0) =~= due@);
        }
        let mut i: usize = 0;
        while i < due.len()
            invariant
                was.wf(),
                all == was.expirations@,
                n <= all.len(),
                due@ == all.take(n as int),
                i <= due@.len(),
                self.timeout == was.timeout,
                self.max_pending == was.max_pending,
                self.discarded == was.discarded,
                self.pending.wf(),
                in_order(self.expirations@),
                one_each(self.expirations@),
                forall|j: int| 0 <= j < due@.len() ==> (#[trigger] due@[j]).0.nanos <= now.nanos,
                forall|k: DatagramKey| #[trigger]
                    self.pending@.dom().contains(k) <==> was.pending@.dom().contains(k) && !(has_slot(
                        due@.take(i as int),
                        k,
                    ) && was.pending@[k]@.deadline.nanos <= now.nanos),
                forall|k: DatagramKey| #[trigger]
                    self.pending@.dom().contains(k) ==> self.pending@[k].wf() && self.pending@[k]@ == (if has_slot(
                        due@.take(i as int),
                        k,
                    ) {
                        refiled(was.pending@[k]@, now)
                    } else {
                        was.pending@[k]@
                    }),
                forall|k: DatagramKey| #[trigger]
                    self.pending@.dom().contains(k) ==> has_slot(self.expirations@, k) || has_slot(
                        due@.skip(i as int),
                        k,
                    ),
                forall|k: DatagramKey| #[trigger]
                    has_slot(self.expirations@, k) ==> !has_slot(due@.skip(i as int), k),
                forall|j: int|
                    0 <= j < self.expirations@.len() ==> self.pending@.dom().contains(
                        (#[trigger] self.expirations@[j]).1,
                    ) && self.pending@[self.expirations@[j].1]@.slot == self.expirations@[j].0,
            decreases due@.len() - i,
        {
            let key: DatagramKey = due[i].1;
            let ghost mid = *self;
            let ghost done = due@.take(i as int);
            let ghost rest = due@.skip(i as int);
            let ghost next = due@.skip(i + 1);
            proof {
                assert(due@[i as int] == all[i as int]);
                assert(was.pending@.dom().contains(all[i as int].1)) by {
                    assert(partials(was.pending@).dom().contains(all[i as int].1));
                }
                assert(rest[0].1 == key);
                assert(has_slot(rest, key));
                assert(!has_slot(done, key)) by {
                    if has_slot(done, key) {
                        let a = choose|a: int| 0 <= a < done.len() && (#[trigger] done[a]).1 == key;
                        assert(all[a].1 != all[i as int].1);
                    }
                }
                assert(!has_slot(next, key)) by {
                    if has_slot(next, key) {
                        let a = choose|a: int| 0 <= a < next.len() && (#[trigger] next[a]).1 == key;
                        assert(next[a] == all[i + 1 + a]);
                        assert(all[i as int].1 != all[i + 1 + a].1);
                    }
                }
                assert forall|k: DatagramKey| #[trigger] has_slot(due@.take(i + 1), k) <==> has_slot(done, k) || k
                    == key by {
                    let more = due@.take(i + 1);
                    if has_slot(done, k) {
                        let a = choose|a: int| 0 <= a < done.len() && (#[trigger] done[a]).1 == k;
                        assert(more[a].1 == k);
                    }
                    assert(more[i as int].1 == key);
                    if has_slot(more, k) {
                        let a = choose|a: int| 0 <= a < more.len() && (#[trigger] more[a]).1 == k;
                        if a < i {
                            assert(done[a].1 == k);
                        }
                    }
                }
                assert forall|k: DatagramKey| #[trigger] has_slot(rest, k) <==> has_slot(next, k) || k == key by {
                    if has_slot(rest, k) {
                        let a = choose|a: int| 0 <= a < rest.len() && (#[trigger] rest[a]).1 == k;
                        if a > 0 {
                            assert(next[a - 1].1 == k);
                        }
                    }
                    if has_slot(next, k) {
                        let a = choose|a: int| 0 <= a < next.len() && (#[trigger] next[a]).1 == k;
                        assert(rest[a + 1].1 == k);
                    }
                }
                assert(was.pending@[key]@.slot == all[i as int].0);
                assert(self.pending@.dom().contains(key));
                assert(!has_slot(self.expirations@, key));
            }
            let deadline: Instant = match self.pending.get(&key) {
                Some(p) => p.deadline(),
                None => now,
            };
            // The slot is a hint; the entry's real deadline governs, so a
            // refreshed datagram is re-filed rather than evicted early.
            if deadline.nanos <= now.nanos {
                let _ = self.pending.remove(&key);
                proof {
                    assert forall|j: int| 0 <= j < self.expirations@.len() implies self.pending@.dom().contains(
                        (#[trigger] self.expirations@[j]).1,
                    ) && self.pending@[self.expirations@[j].1]@.slot == self.expirations@[j].0 by {
                        assert(has_slot(mid.expirations@, mid.expirations@[j].1));
                    }
                }
            } else {
                match self.pending.get_mut(&key) {
                    Some(p) => {
                        p.refile();
                    },
                    None => {},
                }
                file_slot(&mut self.expirations, deadline, key);
                proof {
                    assert forall|j: int| 0 <= j < self.expirations@.len() implies self.pending@.dom().contains(
                        (#[trigger] self.expirations@[j]).1,
                    ) && self.pending@[self.expirations@[j].1]@.slot == self.expirations@[j].0 by {
                        if self.expirations@[j] != (deadline, key) {
                            let a = choose|a: int|
                                0 <= a < mid.expirations@.len() && mid.expirations@[a] == self.expirations@[j];
                            assert(has_slot(mid.expirations@, mid.expirations@[a].1));
                        }
                    }
                }
            }
            i = i + 1;
        }
        let after: usize = self.pending.len();
        proof {
            assert(due@.take(i as int) =~= due@);
            assert(due@.skip(i as int) =~= Seq::<(Instant, DatagramKey)>::empty());
            let m = was@.pending;
            assert forall|k: DatagramKey| was.pending@.dom().contains(k) implies (#[trigger] has_slot(due@, k)
                <==> was.pending@[k]@.slot.nanos <= now.nanos) by {
                let a = choose|a: int| 0 <= a < all.len() && (#[trigger] all[a]).1 == k;
                assert(partials(was.pending@)[all[a].1].slot == all[a].0);
                if a < n {
                    assert(due@[a].1 == k);
                } else {
                    assert(all[n as int].0.nanos <= all[a].0.nanos);
                    if has_slot(due@, k) {
                        let b = choose|b: int| 0 <= b < due@.len() && (#[trigger] due@[b]).1 == k;
                        assert(all[b].1 != all[a].1);
                    }
                }
            }
            assert forall|k: DatagramKey| #[trigger] self.pending@.dom().contains(k) implies self.pending@[k]@.slot.nanos
                <= self.pending@[k]@.deadline.nanos by {
                assert(was.pending@.dom().contains(k));
            }
            assert(self@.pending =~= after_expiry(m, now)) by {
                assert forall|k: DatagramKey| #[trigger] was.pending@.dom().contains(k)
                    && was.pending@[k]@.deadline.nanos <= now.nanos implies has_slot(due@, k) by {
                    assert(was.pending@[k]@.slot.nanos <= was.pending@[k]@.deadline.nanos);
                }
            }
            assert(m.dom() =~= was.pending@.dom());
            assert(self@.pending.dom() =~= self.pending@.dom());
            vstd::set_lib::lemma_len_subset(self.pending@.dom(), was.pending@.dom());
        }
        before - after
    }

    /// Takes one more fragment in.
    pub fn push(&mut self, f: Fragment, now: Instant) -> (r: PushOutcome)
        requires
            old(self).wf(),
            f.wf(),
        ensures
            final(self).wf(),
            final(self)@ == pushed(old(self)@, f, now).0,
            is_outcome(r, pushed(old(self)@, f, now).1),
    {
        let ghost was = *self;
        let ghost piece = reassembly::piece_of(f);
        let offset: usize = f.offset as usize;
        // An empty fragment carries no data, so the block arithmetic has
        // nothing to operate on and the datagram gains nothing.
        let n: usize = f.payload.len();
        if n == 0 || n > MAX_DATAGRAM_BYTES || offset + n > MAX_DATAGRAM_BYTES || (f.more_fragments && n % 8 != 0) {
            self.discarded = self.discarded.saturating_add(1);
            return PushOutcome::Discarded;
        }
        let key = DatagramKey {
            source: f.source,
            destination: f.destination,
            identification: f.identification,
            protocol: f.protocol,
        };
        proof {
            assert(self@.pending.dom() =~= self.pending@.dom());
        }
        if !self.pending.contains_key(&key) && self.pending.len() == self.max_pending {
            let _ = self.expire(now);
            proof {
                assert(self@.pending.dom() =~= self.pending@.dom());
            }
            if self.pending.len() == self.max_pending {
                self.discarded = self.discarded.saturating_add(1);
                return PushOutcome::Discarded;
            }
        }
        let ghost room = *self;
        let deadline: Instant = match now.checked_add(self.timeout) {
            Some(t) => t,
            None => now,
        };
        if !self.pending.contains_key(&key) {
            // One index slot per pending datagram, filed exactly once. A later
            // fragment only refreshes the deadline below, so a fragment flood
            // adds no expiry-index memory at all.
            proof {
                assert(!has_slot(self.expirations@, key)) by {
                    if has_slot(self.expirations@, key) {
                        let a = choose|a: int|
                            0 <= a < self.expirations@.len() && (#[trigger] self.expirations@[a]).1 == key;
                        assert(partials(self.pending@).dom().contains(self.expirations@[a].1));
                    }
                }
            }
            file_slot(&mut self.expirations, deadline, key);
            self.pending.insert(key, Pending::new(deadline));
            proof {
                assert(self.pending@.dom() =~= room.pending@.dom().insert(key));
                assert forall|j: int| 0 <= j < self.expirations@.len() implies partials(self.pending@).dom().contains(
                    (#[trigger] self.expirations@[j]).1,
                ) && partials(self.pending@)[self.expirations@[j].1].slot == self.expirations@[j].0 by {
                    if self.expirations@[j] != (deadline, key) {
                        let a = choose|a: int|
                            0 <= a < room.expirations@.len() && room.expirations@[a] == self.expirations@[j];
                        assert(partials(room.pending@).dom().contains(room.expirations@[a].1));
                    }
                }
                assert forall|k: DatagramKey| #[trigger] self.pending@.dom().contains(k) implies self.pending@[k].wf()
                    && has_slot(self.expirations@, k) && self.pending@[k]@.slot.nanos
                    <= self.pending@[k]@.deadline.nanos by {
                    if k != key {
                        assert(room.pending@.dom().contains(k));
                    }
                }
            }
        } else {
            let back: bool = match self.pending.get(&key) {
                Some(p) => deadline.nanos < p.slot().nanos,
                None => false,
            };
            if back {
                // The slot comes no later than the deadline, so it moves with it.
                match self.pending.get_mut(&key) {
                    Some(p) => {
                        p.refresh(deadline);
                        p.refile();
                    },
                    None => {},
                }
                forget_slot(&mut self.expirations, &key);
                let ghost without = self.expirations@;
                file_slot(&mut self.expirations, deadline, key);
                proof {
                    assert(self.pending@.dom() =~= room.pending@.dom());
                    assert forall|j: int| 0 <= j < self.expirations@.len() implies partials(self.pending@).dom().contains(
                        (#[trigger] self.expirations@[j]).1,
                    ) && partials(self.pending@)[self.expirations@[j].1].slot == self.expirations@[j].0 by {
                        if self.expirations@[j] != (deadline, key) {
                            let a = choose|a: int| 0 <= a < without.len() && without[a] == self.expirations@[j];
                            assert(has_slot(without, without[a].1));
                            assert(room.expirations@.contains(without[a]));
                            let b = choose|b: int|
                                0 <= b < room.expirations@.len() && room.expirations@[b] == without[a];
                            assert(partials(room.pending@).dom().contains(room.expirations@[b].1));
                        }
                    }
                    assert forall|k: DatagramKey| #[trigger] self.pending@.dom().contains(k) implies self.pending@[k].wf()
                        && has_slot(self.expirations@, k) && self.pending@[k]@.slot.nanos
                        <= self.pending@[k]@.deadline.nanos by {
                        assert(room.pending@.dom().contains(k));
                    }
                }
            }
        }
        let ghost mid = *self;
        assert(mid.wf());
        assert(mid.pending@.remove(key) =~= room.pending@.remove(key));
        let mut complete = false;
        match self.pending.get_mut(&key) {
            Some(p) => {
                p.refresh(deadline);
                if p.is_poisoned() {
                    self.discarded = self.discarded.saturating_add(1);
                    proof {
                        self.lemma_updated(mid, key, room);
                    }
                    return PushOutcome::Discarded;
                }
                match p.absorb(&f) {
                    Verdict::Poisoned => {
                        self.discarded = self.discarded.saturating_add(1);
                        proof {
                            self.lemma_updated(mid, key, room);
                        }
                        return PushOutcome::Discarded;
                    },
                    Verdict::Kept => {
                        proof {
                            self.lemma_updated(mid, key, room);
                        }
                        return PushOutcome::Pending;
                    },
                    Verdict::Whole => {
                        complete = true;
                    },
                }
            },
            None => {},
        }
        // A completed datagram leaves, and its slot leaves the index with it;
        // the index never outlives its entries.
        let ghost full = *self;
        proof {
            self.lemma_updated(mid, key, room);
        }
        let taken = self.pending.remove(&key);
        forget_slot(&mut self.expirations, &key);
        proof {
            self.lemma_removed(full, key, room);
        }
        match taken {
            Some(p) => match p.rebuilt(key.protocol) {
                Some(packet) => PushOutcome::Complete(ReassembledPacket::of(packet)),
                None => {
                    self.discarded = self.discarded.saturating_add(1);
                    PushOutcome::Discarded
                },
            },
            None => PushOutcome::Discarded,
        }
    }

    /// Changing one datagram's content keeps everything in order.
    proof fn lemma_updated(&self, before: Reassembler, key: DatagramKey, room: Reassembler)
        requires
            before.wf(),
            before.pending@.dom().contains(key),
            self.pending.wf(),
            self.pending@.dom().contains(key),
            self.pending@ == before.pending@.insert(key, self.pending@[key]),
            self.pending@[key].wf(),
            self.pending@[key]@.slot == before.pending@[key]@.slot,
            self.pending@[key]@.slot.nanos <= self.pending@[key]@.deadline.nanos,
            self.expirations == before.expirations,
            self.max_pending == before.max_pending,
            before.pending@.remove(key) == room.pending@.remove(key),
        ensures
            self.wf(),
            self@.pending == room@.pending.insert(key, self.pending@[key]@),
    {
        assert(self.pending@.dom() =~= before.pending@.dom());
        assert forall|j: int| 0 <= j < self.expirations@.len() implies partials(self.pending@).dom().contains(
            (#[trigger] self.expirations@[j]).1,
        ) && partials(self.pending@)[self.expirations@[j].1].slot == self.expirations@[j].0 by {
            assert(partials(before.pending@).dom().contains(before.expirations@[j].1));
        }
        assert(self@.pending =~= room@.pending.insert(key, self.pending@[key]@)) by {
            let b = before.pending@.remove(key);
            let r = room.pending@.remove(key);
            assert forall|k: DatagramKey| k != key implies self.pending@.dom().contains(k)
                == #[trigger] room.pending@.dom().contains(k) by {
                assert(b.dom().contains(k) == r.dom().contains(k));
            }
            assert forall|k: DatagramKey| k != key && #[trigger] room.pending@.dom().contains(k) implies self.pending@[k]
                == room.pending@[k] by {
                assert(b[k] == r[k]);
            }
        }
    }

    /// Taking a datagram and its slot out keeps everything in order.
    proof fn lemma_removed(&self, before: Reassembler, key: DatagramKey, room: Reassembler)
        requires
            before.wf(),
            before.pending@.dom().contains(key),
            before@.pending == room@.pending.insert(key, before.pending@[key]@),
            self.pending.wf(),
            self.pending@ == before.pending@.remove(key),
            self.max_pending == before.max_pending,
            in_order(self.expirations@),
            one_each(self.expirations@),
            forall|k: DatagramKey| #[trigger]
                has_slot(self.expirations@, k) <==> has_slot(before.expirations@, k) && k != key,
            forall|i: int|
                0 <= i < self.expirations@.len() ==> before.expirations@.contains(
                    #[trigger] self.expirations@[i],
                ),
        ensures
            self.wf(),
            self@.pending == room@.pending.remove(key),
    {
        assert(self.pending@.dom() =~= before.pending@.dom().remove(key));
        assert forall|j: int| 0 <= j < self.expirations@.len() implies partials(self.pending@).dom().contains(
            (#[trigger] self.expirations@[j]).1,
        ) && partials(self.pending@)[self.expirations@[j].1].slot == self.expirations@[j].0 by {
            let a = choose|a: int|
                0 <= a < before.expirations@.len() && before.expirations@[a] == self.expirations@[j];
            assert(partials(before.pending@).dom().contains(before.expirations@[a].1));
            assert(has_slot(self.expirations@, self.expirations@[j].1));
        }
        assert(self@.pending =~= room@.pending.remove(key)) by {
            assert forall|k: DatagramKey| #[trigger] self@.pending.dom().contains(k) == room@.pending.remove(
                key,
            ).dom().contains(k) && (self@.pending.dom().contains(k) ==> self@.pending[k] == room@.pending[k]) by {
                assert(before@.pending.dom().contains(k) == (k == key || room@.pending.dom().contains(k)));
                if k != key && before@.pending.dom().contains(k) {
                    assert(before@.pending[k] == room@.pending[k]);
                }
            }
        }
    }
}

/// What pushing these fragments at these times does, one after the other.
pub open spec fn pushed_all(a: Assembly, frags: Seq<Fragment>, times: Seq<Instant>) -> (
    Assembly,
    Seq<Outcome>,
)
    decreases frags.len(),
{
    if frags.len() == 0 {
        (a, seq![])
    } else {
        let (before, outcomes) = pushed_all(a, frags.drop_last(), times);
        let (after, outcome) = pushed(before, frags.last(), times[frags.len() - 1]);
        (after, outcomes.push(outcome))
    }
}

/// The pieces that fragments are.
pub open spec fn pieces_of(frags: Seq<Fragment>) -> Seq<Piece> {
    Seq::new(frags.len(), |i: int| reassembly::piece_of(frags[i]))
}

/// Whether fragments are those of one datagram: of one key, fitting together,
/// and carrying every byte.
pub open spec fn are_one_datagram(frags: Seq<Fragment>, k: DatagramKey) -> bool {
    &&& forall|i: int| 0 <= i < frags.len() ==> key_of(#[trigger] frags[i]) == k
    &&& reassembly::consistent(pieces_of(frags))
    &&& reassembly::is_whole(pieces_of(frags))
}

/// The packet that the fragments of one datagram make.
pub open spec fn packet_of(frags: Seq<Fragment>, k: DatagramKey) -> Option<Seq<u8>> {
    let pieces = pieces_of(frags);
    let first = reassembly::first_piece(pieces);
    fragment::rebuilt(
        first.headers,
        first.next_header_at,
        k.protocol,
        reassembly::assembled(pieces),
    )
}

/// Some of the fragments of a datagram fit together, and fewer than all are not
/// whole.
proof fn lemma_front(pieces: Seq<Piece>, n: int)
    requires
        reassembly::consistent(pieces),
        reassembly::is_whole(pieces),
        0 <= n <= pieces.len(),
    ensures
        reassembly::consistent(pieces.take(n)),
        n < pieces.len() ==> !reassembly::is_whole(pieces.take(n)),
        n < pieces.len() ==> reassembly::verdict_on(pieces.take(n), pieces[n]) == (if n + 1
            == pieces.len() {
            Verdict::Whole
        } else {
            Verdict::Kept
        }),
    decreases pieces.len() - n,
{
    let front = pieces.take(n);
    assert forall|i: int| 0 <= i < front.len() implies (#[trigger] front[i]).admissible() by {
        assert(front[i] == pieces[i]);
    }
    assert forall|i: int, j: int|
        #![trigger front[i], front[j]]
        0 <= i < j < front.len() implies !front[i].overlaps(front[j]) by {
        assert(!pieces[i].overlaps(pieces[j]));
    }
    assert forall|i: int, j: int|
        #![trigger front[i], front[j]]
        0 <= i < front.len() && 0 <= j < front.len() && front[i].last implies front[j].extent()
        <= front[i].extent() by {
        assert(pieces[j].extent() <= pieces[i].extent());
    }
    if n < pieces.len() {
        let piece = pieces[n];
        reassembly::lemma_declared(pieces);
        reassembly::lemma_declared(front);
        assert(piece.admissible());
        if reassembly::is_whole(front) {
            let total = reassembly::declared(front)->Some_0;
            let last = choose|i: int| 0 <= i < front.len() && (#[trigger] front[i]).last;
            assert(pieces[last].last);
            assert(piece.extent() <= pieces[last].extent());
            assert(reassembly::covered(front, piece.offset));
            let i = choose|i: int| 0 <= i < front.len() && (#[trigger] front[i]).covers(piece.offset);
            assert(!pieces[i].overlaps(pieces[n]));
        }
        if reassembly::declared(front) is Some {
            let last = choose|i: int| 0 <= i < front.len() && (#[trigger] front[i]).last;
            assert(pieces[last].last);
            assert(piece.extent() <= pieces[last].extent());
            if piece.last {
                assert(pieces[last].extent() <= piece.extent());
            }
        }
        if reassembly::overlaps_any(front, piece) {
            let i = choose|i: int| 0 <= i < front.len() && (#[trigger] front[i]).overlaps(piece);
            assert(!pieces[i].overlaps(pieces[n]));
        }
        if piece.last && reassembly::reaches_beyond(front, piece.extent()) {
            let i = choose|i: int| 0 <= i < front.len() && (#[trigger] front[i]).extent() > piece.extent();
            assert(pieces[i].extent() <= piece.extent());
        }
        assert(front.push(piece) =~= pieces.take(n + 1));
        if n + 1 == pieces.len() {
            assert(pieces.take(n + 1) =~= pieces);
        } else {
            lemma_front(pieces, n + 1);
        }
    }
}

/// While fragments are missing, each is accepted, and the datagram is pending
/// with those that came.
proof fn lemma_run(a: Assembly, frags: Seq<Fragment>, times: Seq<Instant>, k: DatagramKey, n: int)
    requires
        are_one_datagram(frags, k),
        times.len() == frags.len(),
        !a.pending.dom().contains(k),
        a.pending.len() < a.limit,
        0 <= n < frags.len(),
    ensures
        ({
            let (after, outcomes) = pushed_all(a, frags.take(n), times);
            &&& outcomes.len() == n
            &&& forall|i: int| 0 <= i < n ==> #[trigger] outcomes[i] is Pending
            &&& n == 0 ==> after == a
            &&& n > 0 ==> after.pending.dom().contains(k) && after.pending[k].pieces
                == pieces_of(frags).take(n) && !after.pending[k].poisoned && after.pending.remove(k)
                == a.pending && after == (Assembly { pending: after.pending, ..a })
        }),
    decreases n,
{
    if n > 0 {
        lemma_run(a, frags, times, k, n - 1);
        let done = frags.take(n);
        assert(done.drop_last() =~= frags.take(n - 1));
        let (before, outcomes) = pushed_all(a, frags.take(n - 1), times);
        let pieces = pieces_of(frags);
        lemma_front(pieces, n - 1);
        assert(key_of(frags[n - 1]) == k);
        assert(pieces[n - 1] == reassembly::piece_of(frags[n - 1]));
        assert(pieces[n - 1].admissible());
        assert(pieces.take(n - 1).push(pieces[n - 1]) =~= pieces.take(n));
        assert(pieces.take(0) =~= Seq::<Piece>::empty());
        let (after, outcome) = pushed(before, frags[n - 1], times[n - 1]);
        assert(after.pending.remove(k) =~= a.pending);
    }
}

/// The fragments of one datagram, pushed in whatever order they come, are each
/// pending until the last, which completes the packet; and nothing is left of
/// them. There has to be room for one more datagram.
pub proof fn all_fragments_complete_their_datagram(
    a: Assembly,
    frags: Seq<Fragment>,
    times: Seq<Instant>,
    k: DatagramKey,
)
    requires
        are_one_datagram(frags, k),
        times.len() == frags.len(),
        !a.pending.dom().contains(k),
        a.pending.len() < a.limit,
        packet_of(frags, k) is Some,
    ensures
        ({
            let (after, outcomes) = pushed_all(a, frags, times);
            &&& outcomes.len() == frags.len()
            &&& forall|i: int| 0 <= i < frags.len() - 1 ==> #[trigger] outcomes[i] is Pending
            &&& outcomes.last() == Outcome::Complete(packet_of(frags, k)->0)
            &&& after == a
        }),
{
    let pieces = pieces_of(frags);
    let n: int = frags.len() - 1;
    assert(frags.len() > 0) by {
        let i = choose|i: int| 0 <= i < pieces.len() && (#[trigger] pieces[i]).last;
    }
    lemma_run(a, frags, times, k, n);
    lemma_front(pieces, n);
    assert(frags.drop_last() =~= frags.take(n));
    let (before, outcomes) = pushed_all(a, frags.take(n), times);
    assert(key_of(frags[n]) == k);
    assert(pieces[n] == reassembly::piece_of(frags[n]));
    assert(pieces[n].admissible());
    assert(pieces.take(n).push(pieces[n]) =~= pieces);
    assert(pieces.take(0) =~= Seq::<Piece>::empty());
    let (after, outcome) = pushed(before, frags[n], times[n]);
    if n == 0 {
        assert(a.pending.remove(k) =~= a.pending);
    }
    assert(after.pending =~= a.pending);
}

/// Every order of the same fragments completes the same packet.
pub proof fn every_order_completes_the_same_packet(
    frags: Seq<Fragment>,
    others: Seq<Fragment>,
    k: DatagramKey,
)
    requires
        are_one_datagram(frags, k),
        are_one_datagram(others, k),
        forall|p: Piece| #[trigger] pieces_of(frags).contains(p) <==> pieces_of(others).contains(p),
    ensures
        packet_of(frags, k) == packet_of(others, k),
{
    reassembly::order_of_arrival_does_not_matter(pieces_of(frags), pieces_of(others));
}

/// Two fragments belong to one datagram exactly if they agree on source,
/// destination, identification and protocol.
pub proof fn a_datagram_is_told_by_four_fields(a: Fragment, b: Fragment)
    ensures
        key_of(a) == key_of(b) <==> a.source == b.source && a.destination == b.destination && a.identification
            == b.identification && a.protocol == b.protocol,
{
}

/// Fragmenting and pushing gives an IPv4 packet back: the fragments of a packet,
/// cut at any places and pushed in any order, are each pending until the last,
/// which completes to that very packet, and nothing is left of them.
pub proof fn the_fragments_of_an_ipv4_packet_complete_to_it(
    a: Assembly,
    packet: Seq<u8>,
    frags: Seq<Fragment>,
    times: Seq<Instant>,
    k: DatagramKey,
)
    requires
        20 <= packet.len() <= 65535,
        packet[0] / 16 == 4,
        20 <= (packet[0] % 16) * 4 <= packet.len(),
        packet[2] * 256 + packet[3] == packet.len(),
        packet[6] % 64 == 0,
        packet[7] == 0,
        wire::words_sum(packet.take((packet[0] % 16) * 4)) % 65535 == 0,
        packet[10] * 256 + packet[11] < 65535,
        are_one_datagram(frags, k),
        forall|i: int|
            0 <= i < frags.len() ==> reassembly::cut_from(
                #[trigger] reassembly::piece_of(frags[i]),
                packet.skip((packet[0] % 16) * 4),
            ),
        forall|i: int|
            0 <= i < frags.len() && (#[trigger] frags[i]).offset == 0 ==> frags[i].next_header_at is None
                && fragment::same_header4(frags[i].headers@, packet.take((packet[0] % 16) * 4)),
        times.len() == frags.len(),
        !a.pending.dom().contains(k),
        a.pending.len() < a.limit,
    ensures
        ({
            let (after, outcomes) = pushed_all(a, frags, times);
            &&& outcomes.len() == frags.len()
            &&& forall|i: int| 0 <= i < frags.len() - 1 ==> #[trigger] outcomes[i] is Pending
            &&& outcomes.last() == Outcome::Complete(packet)
            &&& after == a
        }),
{
    let pieces = pieces_of(frags);
    let n = (packet[0] % 16) * 4;
    assert forall|i: int| 0 <= i < pieces.len() implies reassembly::cut_from(
        #[trigger] pieces[i],
        packet.skip(n),
    ) by {
        assert(pieces[i] == reassembly::piece_of(frags[i]));
    }
    reassembly::reassembly_undoes_fragmentation(packet.skip(n), pieces);
    reassembly::lemma_whole_has_a_first(pieces);
    let first = choose|i: int| 0 <= i < pieces.len() && (#[trigger] pieces[i]).offset == 0;
    assert(frags[first].offset == 0);
    fragment::an_ipv4_packet_is_rebuilt_as_it_was(packet, frags[first].headers@, k.protocol);
    all_fragments_complete_their_datagram(a, frags, times, k);
}

/// Fragmenting and pushing gives an IPv6 packet back, in the same way. The
/// fragments carry the headers up to the Fragment header, whose last Next Header
/// byte announces it, and the protocol that the packet has there.
pub proof fn the_fragments_of_an_ipv6_packet_complete_to_it(
    a: Assembly,
    packet: Seq<u8>,
    kept: int,
    number_at: usize,
    frags: Seq<Fragment>,
    times: Seq<Instant>,
    k: DatagramKey,
)
    requires
        40 <= kept <= packet.len() <= 40 + 65535,
        6 <= number_at < kept,
        packet[0] / 16 == 6,
        packet[4] * 256 + packet[5] == packet.len() - 40,
        packet[number_at as int] == k.protocol,
        are_one_datagram(frags, k),
        forall|i: int|
            0 <= i < frags.len() ==> reassembly::cut_from(
                #[trigger] reassembly::piece_of(frags[i]),
                packet.skip(kept),
            ),
        forall|i: int|
            0 <= i < frags.len() && (#[trigger] frags[i]).offset == 0 ==> frags[i].next_header_at == Some(number_at)
                && frags[i].headers@.len() == kept && forall|j: int|
                0 <= j < kept && j != 4 && j != 5 && j != number_at ==> frags[i].headers@[j] == packet[j],
        times.len() == frags.len(),
        !a.pending.dom().contains(k),
        a.pending.len() < a.limit,
    ensures
        ({
            let (after, outcomes) = pushed_all(a, frags, times);
            &&& outcomes.len() == frags.len()
            &&& forall|i: int| 0 <= i < frags.len() - 1 ==> #[trigger] outcomes[i] is Pending
            &&& outcomes.last() == Outcome::Complete(packet)
            &&& after == a
        }),
{
    let pieces = pieces_of(frags);
    assert forall|i: int| 0 <= i < pieces.len() implies reassembly::cut_from(
        #[trigger] pieces[i],
        packet.skip(kept),
    ) by {
        assert(pieces[i] == reassembly::piece_of(frags[i]));
    }
    reassembly::reassembly_undoes_fragmentation(packet.skip(kept), pieces);
    reassembly::lemma_whole_has_a_first(pieces);
    let first = choose|i: int| 0 <= i < pieces.len() && (#[trigger] pieces[i]).offset == 0;
    assert(frags[first].offset == 0);
    fragment::an_ipv6_packet_is_rebuilt_as_it_was(packet, frags[first].headers@, number_at, k.protocol);
    all_fragments_complete_their_datagram(a, frags, times, k);
}

/// A fragment that is empty, that ends beyond the largest datagram, or that is
/// not the last and holds no whole blocks of eight bytes, is discarded and counted,
/// and changes nothing else.
pub proof fn a_malformed_fragment_changes_nothing(a: Assembly, f: Fragment, now: Instant)
    requires
        f.payload@.len() == 0 || f.offset + f.payload@.len() > 65535 || (f.more_fragments && f.payload@.len() % 8
            != 0),
    ensures
        pushed(a, f, now).1 is Discarded,
        pushed(a, f, now).0.pending == a.pending,
        a.discarded < u64::MAX ==> pushed(a, f, now).0.discarded == a.discarded + 1,
{
}

/// Whether a fragment contradicts what came of its datagram: it shares a byte with
/// an earlier one, it ends behind a known end or is another end, or it ends the
/// datagram before a byte that came already.
pub open spec fn contradicts(pieces: Seq<Piece>, f: Fragment) -> bool {
    exists|i: int|
        #![trigger pieces[i]]
        0 <= i < pieces.len() && {
            let from = pieces[i].offset;
            let end = pieces[i].offset + pieces[i].payload.len();
            ||| from < f.offset + f.payload@.len() && f.offset < end
            ||| pieces[i].last && f.offset + f.payload@.len() > end
            ||| pieces[i].last && !f.more_fragments && f.offset + f.payload@.len() != end
            ||| !f.more_fragments && f.offset + f.payload@.len() < end
        }
}

/// One fragment that contradicts the others loses the whole datagram (RFC 5722):
/// it is discarded, nothing is kept of the others, and what still comes of the
/// datagram is discarded too. A fragment that contradicts nothing is kept, with
/// the others as they were, until it makes the datagram whole.
pub proof fn a_contradiction_loses_the_datagram(a: Assembly, f: Fragment, now: Instant)
    requires
        f.wf(),
        a.pending.dom().contains(key_of(f)),
        reassembly::consistent(a.pending[key_of(f)].pieces),
        0 < f.payload@.len(),
        f.offset + f.payload@.len() <= 65535,
        f.more_fragments ==> f.payload@.len() % 8 == 0,
    ensures
        ({
            let k = key_of(f);
            let (after, outcome) = pushed(a, f, now);
            &&& a.pending[k].poisoned || contradicts(a.pending[k].pieces, f) ==> outcome is Discarded
                && after.pending.dom().contains(k) && after.pending[k].poisoned
            &&& !a.pending[k].poisoned && contradicts(a.pending[k].pieces, f) ==> after.pending[k].pieces.len() == 0
            &&& !a.pending[k].poisoned && !contradicts(a.pending[k].pieces, f) ==> {
                ||| outcome is Pending && after.pending.dom().contains(k) && !after.pending[k].poisoned
                    && after.pending[k].pieces.drop_last() == a.pending[k].pieces
                    && after.pending[k].pieces.last().payload == f.payload@
                    && after.pending[k].pieces.last().offset == f.offset
                    && after.pending[k].pieces.last().last == !f.more_fragments
                    && after.pending[k].pieces.last().headers == f.headers@
                    && after.pending[k].pieces.last().next_header_at == f.next_header_at
                ||| !after.pending.dom().contains(k) && !(outcome is Pending)
            }
            &&& after.pending.dom().contains(k) && now.nanos + a.timeout.nanos <= u128::MAX
                ==> after.pending[k].deadline.nanos == now.nanos + a.timeout.nanos
        }),
{
    let k = key_of(f);
    let pieces = a.pending[k].pieces;
    let piece = reassembly::piece_of(f);
    reassembly::lemma_declared(pieces);
    assert(contradicts(pieces, f) <==> reassembly::verdict_on(pieces, piece) is Poisoned) by {
        if contradicts(pieces, f) {
            let i = choose|i: int|
                #![trigger pieces[i]]
                0 <= i < pieces.len() && {
                    let from = pieces[i].offset;
                    let end = pieces[i].offset + pieces[i].payload.len();
                    ||| from < f.offset + f.payload@.len() && f.offset < end
                    ||| pieces[i].last && f.offset + f.payload@.len() > end
                    ||| pieces[i].last && !f.more_fragments && f.offset + f.payload@.len() != end
                    ||| !f.more_fragments && f.offset + f.payload@.len() < end
                };
            assert(pieces[i].extent() == pieces[i].offset + pieces[i].payload.len());
            if pieces[i].overlaps(piece) {
                assert(reassembly::overlaps_any(pieces, piece));
            }
            if pieces[i].extent() > piece.extent() {
                assert(reassembly::reaches_beyond(pieces, piece.extent()));
            }
        }
        if reassembly::declared(pieces) is Some {
            let j = choose|j: int| 0 <= j < pieces.len() && (#[trigger] pieces[j]).last;
            assert(pieces[j].last);
        }
        if reassembly::overlaps_any(pieces, piece) {
            let j = choose|j: int| 0 <= j < pieces.len() && (#[trigger] pieces[j]).overlaps(piece);
            assert(pieces[j].overlaps(piece));
        }
        if piece.last && reassembly::reaches_beyond(pieces, piece.extent()) {
            let j = choose|j: int| 0 <= j < pieces.len() && (#[trigger] pieces[j]).extent() > piece.extent();
            assert(pieces[j].extent() > piece.extent());
        }
    }
    assert(pieces.push(piece).drop_last() =~= pieces);
}

/// Pushing a fragment touches no other datagram: each keeps its fragments and its
/// deadline, unless room had to be made and its own deadline had arrived; and none
/// appears. The number pending never exceeds the limit, and the count of discards
/// grows by one exactly where a fragment was discarded.
pub proof fn a_fragment_touches_its_own_datagram_only(a: Assembly, f: Fragment, now: Instant, other: DatagramKey)
    requires
        a.pending.dom().finite(),
        a.pending.len() <= a.limit,
        other != key_of(f),
    ensures
        ({
            let (after, outcome) = pushed(a, f, now);
            &&& after.pending.dom().contains(other) ==> a.pending.dom().contains(other)
            &&& a.pending.dom().contains(other) ==> after.pending.dom().contains(other) || (
            a.pending[other].deadline.nanos <= now.nanos && a.pending.len() == a.limit && !a.pending.dom().contains(
                key_of(f),
            ))
            &&& after.pending.dom().contains(other) ==> after.pending[other].pieces == a.pending[other].pieces
                && after.pending[other].poisoned == a.pending[other].poisoned && after.pending[other].deadline
                == a.pending[other].deadline
            &&& after.pending.dom().finite()
            &&& after.pending.len() <= a.limit
            &&& after.limit == a.limit && after.timeout == a.timeout
            &&& a.discarded < u64::MAX ==> after.discarded == a.discarded + (if outcome is Discarded {
                1int
            } else {
                0
            })
            &&& outcome is Complete ==> !after.pending.dom().contains(key_of(f))
        }),
{
    let k = key_of(f);
    let room = with_room(a, k, now);
    let after = pushed(a, f, now).0;
    assert(room.dom().subset_of(a.pending.dom()));
    vstd::set_lib::lemma_len_subset(room.dom(), a.pending.dom());
    assert(forall|p: Partial| #[trigger] room.insert(k, p).dom() =~= room.dom().insert(k));
    assert(room.remove(k).dom() =~= room.dom().remove(k));
    if a.pending.dom().contains(k) {
        assert(room.dom().insert(k) =~= room.dom());
    }
}

/// An expiry pass leaves exactly the datagrams whose deadline is still to come,
/// with their fragments and deadlines.
pub proof fn expiry_goes_by_the_deadline(pending: Map<DatagramKey, Partial>, now: Instant, k: DatagramKey)
    ensures
        after_expiry(pending, now).dom().contains(k) <==> pending.dom().contains(k) && pending[k].deadline.nanos
            > now.nanos,
        after_expiry(pending, now).dom().contains(k) ==> after_expiry(pending, now)[k].pieces == pending[k].pieces
            && after_expiry(pending, now)[k].poisoned == pending[k].poisoned
            && after_expiry(pending, now)[k].deadline == pending[k].deadline,
{
}

/// A new datagram finds no room exactly where as many are pending as may be and
/// none of their deadlines has arrived; then its fragment is discarded and every
/// pending datagram stays.
pub proof fn a_full_table_refuses_new_datagrams(a: Assembly, f: Fragment, now: Instant)
    requires
        !a.pending.dom().contains(key_of(f)),
        a.pending.dom().finite(),
        a.pending.len() == a.limit,
        forall|k: DatagramKey| #[trigger] a.pending.dom().contains(k) ==> a.pending[k].deadline.nanos > now.nanos,
    ensures
        pushed(a, f, now).1 is Discarded,
        pushed(a, f, now).0.pending.dom() == a.pending.dom(),
{
    assert(after_expiry(a.pending, now).dom() =~= a.pending.dom());
}

/// A completed packet carries every fragment at its place, and nothing else: behind
/// the headers of the offset-zero fragment stand the payloads, each where its
/// offset says, up to where the last one ends.
pub proof fn a_completed_packet_carries_every_fragment(a: Assembly, f: Fragment, now: Instant)
    requires
        f.wf(),
        a.pending.dom().contains(key_of(f)),
        reassembly::consistent(a.pending[key_of(f)].pieces),
        forall|i: int|
            0 <= i < a.pending[key_of(f)].pieces.len() && (
            #[trigger] a.pending[key_of(f)].pieces[i]).next_header_at is None ==> fragment::is_whole_ipv4_header(
                a.pending[key_of(f)].pieces[i].headers,
            ),
        forall|i: int|
            0 <= i < a.pending[key_of(f)].pieces.len() && (
            #[trigger] a.pending[key_of(f)].pieces[i]).next_header_at is Some ==> 6
                <= a.pending[key_of(f)].pieces[i].next_header_at->0 < a.pending[key_of(f)].pieces[i].headers.len() && a.pending[key_of(f)].pieces[i].headers.len() >= 40,
        f.next_header_at matches Some(at) ==> 6 <= at < f.headers@.len() && f.headers@.len() >= 40,
    ensures
        pushed(a, f, now).1 matches Outcome::Complete(packet) ==> {
            let pieces = a.pending[key_of(f)].pieces.push(reassembly::piece_of(f));
            exists|z: int, e: int| #![trigger pieces[z], pieces[e]] {
                &&& 0 <= z < pieces.len() && pieces[z].offset == 0
                &&& 0 <= e < pieces.len() && pieces[e].last
                &&& packet.len() == pieces[z].headers.len() + pieces[e].offset + pieces[e].payload.len()
                &&& forall|i: int|
                    0 <= i < pieces.len() ==> packet.subrange(
                        pieces[z].headers.len() + (#[trigger] pieces[i]).offset,
                        pieces[z].headers.len() + pieces[i].offset + pieces[i].payload.len(),
                    ) == pieces[i].payload
            }
        },
{
    let k = key_of(f);
    let piece = reassembly::piece_of(f);
    let pieces = a.pending[k].pieces.push(piece);
    if pushed(a, f, now).1 is Complete {
        let packet = pushed(a, f, now).1->Complete_0;
        reassembly::accepted_pieces_stay_consistent(a.pending[k].pieces, piece);
        reassembly::lemma_declared(pieces);
        reassembly::lemma_whole_has_a_first(pieces);
        let z = choose|i: int| 0 <= i < pieces.len() && (#[trigger] pieces[i]).offset == 0;
        let e = choose|i: int| 0 <= i < pieces.len() && (#[trigger] pieces[i]).last;
        let data = reassembly::assembled(pieces);
        let first = pieces[z];
        let n = first.headers.len() as int;
        if z < a.pending[k].pieces.len() {
            assert(a.pending[k].pieces[z] == first);
        }
        match first.next_header_at {
            None => fragment::a_rebuilt_ipv4_packet_keeps_every_other_byte(first.headers, data, k.protocol),
            Some(at) => fragment::a_rebuilt_ipv6_packet_keeps_every_other_byte(first.headers, at, data, k.protocol),
        }
        assert forall|i: int| 0 <= i < pieces.len() implies packet.subrange(
            n + (#[trigger] pieces[i]).offset,
            n + pieces[i].offset + pieces[i].payload.len(),
        ) == pieces[i].payload by {
            let p = pieces[i];
            assert(p.admissible());
            assert(p.extent() <= pieces[e].extent());
            let part = packet.subrange(n + p.offset, n + p.extent());
            assert forall|j: int| 0 <= j < p.payload.len() implies part[j] == p.payload[j] by {
                reassembly::lemma_assembled_at(pieces, i, p.offset + j);
                assert(packet[n + p.offset + j] == (first.headers + data)[n + p.offset + j]);
            }
            assert(part =~= p.payload);
        }
        assert(pieces[e].extent() == pieces[e].offset + pieces[e].payload.len());
        assert(packet.len() == pieces[z].headers.len() + pieces[e].offset + pieces[e].payload.len());
    }
}

/// A datagram that is new and finds room waits for its other fragments as long as the
/// timeout says, from now on, with the fragment it came by and no other.
pub proof fn a_new_datagram_waits_its_timeout(a: Assembly, f: Fragment, now: Instant)
    requires
        f.wf(),
        !a.pending.dom().contains(key_of(f)),
        a.pending.len() < a.limit,
        f.more_fragments || f.offset > 0,
        0 < f.payload@.len(),
        f.offset + f.payload@.len() <= 65535,
        f.more_fragments ==> f.payload@.len() % 8 == 0,
        now.nanos + a.timeout.nanos <= u128::MAX,
    ensures
        ({
            let (after, outcome) = pushed(a, f, now);
            &&& outcome is Pending
            &&& after.pending.dom() == a.pending.dom().insert(key_of(f))
            &&& after.pending[key_of(f)].pieces.len() == 1
            &&& after.pending[key_of(f)].pieces[0].payload == f.payload@
            &&& after.pending[key_of(f)].pieces[0].offset == f.offset
            &&& !after.pending[key_of(f)].poisoned
            &&& after.pending[key_of(f)].deadline.nanos == now.nanos + a.timeout.nanos
            &&& after.discarded == a.discarded
        }),
{
    let piece = reassembly::piece_of(f);
    let none = Seq::<Piece>::empty();
    let one = none.push(piece);
    assert(reassembly::declared(none) is None);
    assert(!reassembly::overlaps_any(none, piece));
    assert(!reassembly::reaches_beyond(none, piece.extent()));
    assert(!reassembly::is_whole(one)) by {
        if reassembly::is_whole(one) {
            let l = choose|i: int| 0 <= i < one.len() && (#[trigger] one[i]).last;
            assert(one[l] == piece);
            assert(f.offset > 0);
            assert(reassembly::covered(one, 0));
            let i = choose|i: int| 0 <= i < one.len() && (#[trigger] one[i]).covers(0);
            assert(one[i] == piece);
        }
    }
    assert(pushed(a, f, now).0.pending.dom() =~= a.pending.dom().insert(key_of(f)));
}

} // verus!
