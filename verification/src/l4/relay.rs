//! Relaying datagrams for egresses that carry flows: one association for each
//! client, bounded in number, and every loss counted.

use vstd::prelude::*;

use crate::addr::InternalEndpoint;
use crate::clock::Duration;
use crate::table::Table;

verus! {

/// Bounds on a relay.
#[derive(Clone, Copy, Debug, PartialEq, Eq, Structural)]
pub struct RelayLimits {
    /// The most associations at a time.
    pub max_associations: usize,
    /// How long an association may stay silent both ways.
    pub idle_timeout: Duration,
}

impl Default for RelayLimits {
    fn default() -> (r: Self)
        ensures
            r.max_associations == 512,
            r.idle_timeout.nanos == 120_000_000_000,
    {
        RelayLimits { max_associations: 512, idle_timeout: Duration::from_secs(120) }
    }
}

/// What a relay lost.
#[derive(Clone, Copy, Debug, PartialEq, Eq, Structural)]
pub struct RelayCounts {
    /// Clients refused at the ceiling.
    pub associations_refused: u64,
    /// Datagrams that no queue, budget or peer took.
    pub datagrams_dropped: u64,
    /// Associations that the egress did not give.
    pub associations_failed: u64,
}

/// Nothing lost.
pub open spec fn no_counts() -> RelayCounts {
    RelayCounts { associations_refused: 0, datagrams_dropped: 0, associations_failed: 0 }
}

impl Default for RelayCounts {
    fn default() -> (r: Self)
        ensures
            r == no_counts(),
    {
        RelayCounts { associations_refused: 0, datagrams_dropped: 0, associations_failed: 0 }
    }
}

/// One more, as far as a `u64` counts.
pub open spec fn more(n: u64) -> u64 {
    if n < u64::MAX {
        (n + 1) as u64
    } else {
        u64::MAX
    }
}

impl RelayCounts {
    /// Adds another report, count by count.
    pub fn add(&mut self, other: Self)
        requires
            old(self).associations_refused + other.associations_refused <= u64::MAX,
            old(self).datagrams_dropped + other.datagrams_dropped <= u64::MAX,
            old(self).associations_failed + other.associations_failed <= u64::MAX,
        ensures
            final(self).associations_refused == old(self).associations_refused
                + other.associations_refused,
            final(self).datagrams_dropped == old(self).datagrams_dropped + other.datagrams_dropped,
            final(self).associations_failed == old(self).associations_failed
                + other.associations_failed,
    {
        self.associations_refused = self.associations_refused + other.associations_refused;
        self.datagrams_dropped = self.datagrams_dropped + other.datagrams_dropped;
        self.associations_failed = self.associations_failed + other.associations_failed;
    }

    /// Counts a datagram that was lost.
    pub fn dropped(&mut self)
        ensures
            *final(self) == (RelayCounts {
                datagrams_dropped: more(old(self).datagrams_dropped),
                ..*old(self)
            }),
    {
        self.datagrams_dropped = self.datagrams_dropped.saturating_add(1);
    }
}

/// What is done with a client's datagram.
#[derive(Clone, Copy, Debug, PartialEq, Eq, Structural)]
pub enum Offer {
    /// It goes to the association there is.
    Existing,
    /// It goes to an association that is opened for it.
    Opened,
    /// It is dropped: there is no room for another association.
    Refused,
}

/// The clients that have an association.
pub struct Associations {
    live: Table<InternalEndpoint, ()>,
    limit: usize,
    counts: RelayCounts,
}

impl View for Associations {
    type V = Map<InternalEndpoint, ()>;

    closed spec fn view(&self) -> Map<InternalEndpoint, ()> {
        self.live@
    }
}

impl Associations {
    pub closed spec fn ceiling(&self) -> usize {
        self.limit
    }

    /// What was lost so far.
    pub closed spec fn losses(&self) -> RelayCounts {
        self.counts
    }

    pub closed spec fn inner(&self) -> bool {
        self.live.wf()
    }

    /// The associations are within their ceiling.
    pub open spec fn wf(&self) -> bool {
        self.inner() && self@.len() <= self.ceiling() && self@.dom().finite()
    }

    pub fn new(limits: RelayLimits) -> (r: Self)
        ensures
            r.wf(),
            r.ceiling() == limits.max_associations,
            r@ == Map::<InternalEndpoint, ()>::empty(),
            r.losses() == no_counts(),
    {
        Associations {
            live: Table::new(),
            limit: limits.max_associations,
            counts: RelayCounts::default(),
        }
    }

    /// What was lost since the last report, which starts again from nothing.
    pub fn take_counts(&mut self) -> (r: RelayCounts)
        requires
            old(self).wf(),
        ensures
            final(self).wf(),
            r == old(self).losses(),
            final(self).losses() == no_counts(),
            final(self)@ == old(self)@,
            final(self).ceiling() == old(self).ceiling(),
    {
        let r: RelayCounts = self.counts;
        self.counts = RelayCounts::default();
        r
    }

    /// Counts a datagram that its association did not take.
    pub fn dropped(&mut self)
        requires
            old(self).wf(),
        ensures
            final(self).wf(),
            final(self).losses() == (RelayCounts {
                datagrams_dropped: more(old(self).losses().datagrams_dropped),
                ..old(self).losses()
            }),
            final(self)@ == old(self)@,
            final(self).ceiling() == old(self).ceiling(),
    {
        self.counts.dropped();
    }

    pub fn len(&self) -> (n: usize)
        requires
            self.wf(),
        ensures
            n == self@.len(),
    {
        self.live.len()
    }

    /// Takes a client's datagram, given whether the client's association, if it
    /// has one, has ended: an ended one is forgotten before room is looked for.
    pub fn offer(&mut self, client: InternalEndpoint, ended: bool) -> (r: Offer)
        requires
            old(self).wf(),
        ensures
            final(self).wf(),
            final(self).ceiling() == old(self).ceiling(),
            ({
                let left = if ended {
                    old(self)@.remove(client)
                } else {
                    old(self)@
                };
                if left.dom().contains(client) {
                    r == Offer::Existing && final(self)@ == left && final(self).losses() == old(self).losses()
                } else if left.len() >= old(self).ceiling() {
                    r == Offer::Refused && final(self)@ == left && final(self).losses() == (
                    RelayCounts {
                        associations_refused: more(old(self).losses().associations_refused),
                        ..old(self).losses()
                    })
                } else {
                    r == Offer::Opened && final(self)@ == left.insert(client, ()) && final(self).losses() == old(self).losses()
                }
            }),
    {
        if ended && self.live.contains_key(&client) {
            self.live.remove(&client);
        } else {
            assert(ended ==> self@ =~= old(self)@.remove(client));
        }
        if self.live.contains_key(&client) {
            return Offer::Existing;
        }
        if self.live.len() >= self.limit {
            self.counts.associations_refused = self.counts.associations_refused.saturating_add(1);
            return Offer::Refused;
        }
        self.live.insert(client, ());
        Offer::Opened
    }
}

/// What came over an association.
#[derive(Clone, Copy, Debug, PartialEq, Eq, Structural)]
pub enum Received {
    /// A datagram: whether its peer is an address, whether the budget held it,
    /// and whether the reactor took it.
    Datagram { addressed: bool, budgeted: bool, delivered: bool },
    /// A datagram too large to be carried.
    TooLarge,
    /// The association failed.
    Failed,
}

/// The counts of an association that the egress did not give, with what was
/// queued for it.
pub fn not_given(queued: usize) -> (r: RelayCounts)
    ensures
        r == (RelayCounts {
            associations_refused: 0,
            datagrams_dropped: queued as u64,
            associations_failed: 1,
        }),
{
    RelayCounts {
        associations_refused: 0,
        datagrams_dropped: queued as u64,
        associations_failed: 1,
    }
}

/// Takes what came over an association; says whether it goes on. A datagram
/// that does not get to the client is counted and ends nothing.
pub fn take_received(counts: &mut RelayCounts, received: Received) -> (r: bool)
    ensures
        r == !(received is Failed),
        *final(counts) == (match received {
            Received::Datagram { addressed: true, budgeted: true, delivered: true } => *old(counts),
            Received::Failed => *old(counts),
            _ => RelayCounts {
                datagrams_dropped: more(old(counts).datagrams_dropped),
                ..*old(counts)
            },
        }),
{
    match received {
        Received::Datagram { addressed, budgeted, delivered } => {
            if !(addressed && budgeted && delivered) {
                counts.dropped();
            }
            true
        },
        Received::TooLarge => {
            counts.dropped();
            true
        },
        Received::Failed => false,
    }
}

/// How often counts are reported, in nanoseconds.
pub const REPORT_NANOS: u128 = 500_000_000;

/// Whether counts are reported, this long after they last were.
pub fn report_due(elapsed: Duration) -> (r: bool)
    ensures
        r == (elapsed.nanos >= REPORT_NANOS),
{
    elapsed.nanos >= REPORT_NANOS
}

/// A client's datagram goes to its live association, or to one that is opened for it
/// where there is room; it is refused and counted exactly where there is neither. No
/// other client's association is touched, and there are never more than may be.
pub proof fn a_client_has_one_association_at_most(
    a: &mut Associations,
    client: InternalEndpoint,
    ended: bool,
    r: Offer,
    other: InternalEndpoint,
)
    requires
        old(a).wf(),
        call_ensures(Associations::offer, (a, client, ended), r),
    ensures
        r == Offer::Existing <==> old(a)@.dom().contains(client) && !ended,
        old(a)@.len() < old(a).ceiling() ==> r != Offer::Refused,
        !old(a)@.dom().contains(client) && old(a)@.len() == old(a).ceiling() ==> r == Offer::Refused,
        old(a)@.dom().contains(client) && ended ==> r == Offer::Opened,
        r == Offer::Opened || r == Offer::Existing ==> final(a)@.dom().contains(client),
        r == Offer::Refused ==> !final(a)@.dom().contains(client),
        other != client ==> (final(a)@.dom().contains(other) <==> old(a)@.dom().contains(other)),
        final(a)@.len() <= old(a).ceiling(),
        r == Offer::Refused && old(a).losses().associations_refused < u64::MAX ==> final(a).losses() == (RelayCounts {
            associations_refused: (old(a).losses().associations_refused + 1) as u64,
            ..old(a).losses()
        }),
        r != Offer::Refused ==> final(a).losses() == old(a).losses(),
{
    let left = if ended {
        old(a)@.remove(client)
    } else {
        old(a)@
    };
    if ended && old(a)@.dom().contains(client) {
        assert(left.dom() =~= old(a)@.dom().remove(client));
        assert(left.len() == old(a)@.len() - 1);
    } else if ended {
        assert(left =~= old(a)@);
    }
}

/// A datagram that comes back reaches its client exactly if it has an address, the budget
/// held it and the reactor took it; every other is counted as lost, and only a failure
/// ends the association.
pub proof fn only_a_failure_ends_an_association(counts: &mut RelayCounts, received: Received, r: bool)
    requires
        call_ensures(take_received, (counts, received), r),
        old(counts).datagrams_dropped < u64::MAX,
    ensures
        !r <==> received is Failed,
        received is TooLarge ==> final(counts).datagrams_dropped == old(counts).datagrams_dropped + 1,
        received matches Received::Datagram { addressed, budgeted, delivered } ==> final(counts).datagrams_dropped
            == old(counts).datagrams_dropped + (if addressed && budgeted && delivered { 0int } else { 1 }),
        received is Failed ==> final(counts).datagrams_dropped == old(counts).datagrams_dropped,
        final(counts).associations_refused == old(counts).associations_refused,
        final(counts).associations_failed == old(counts).associations_failed,
{
}

/// An association that the egress did not give is one failure, and everything that was
/// queued for it is lost.
pub proof fn an_ungiven_association_loses_its_queue(queued: usize, r: RelayCounts)
    requires
        call_ensures(not_given, (queued,), r),
    ensures
        r.associations_failed == 1,
        r.datagrams_dropped == queued,
        r.associations_refused == 0,
{
}

} // verus!
