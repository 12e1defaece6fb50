//! The reactor's decisions: when it wakes, what is due, what is counted and
//! reported, and how a query is answered.
//!
//! Traffic never waits: what a full queue refuses is counted, and the counts
//! are reported at intervals. A report that is itself refused is counted too.

use vstd::prelude::*;

use crate::addr::{InternalEndpoint, IpAddr};
use crate::clock::{Duration, Instant};
#[allow(unused_imports)]
use crate::hosts;
use crate::hosts::{HostPolicy, HostVerdict};
use crate::name::Name;
use crate::plan::{Accepts, PathProperties};
#[allow(unused_imports)]
use crate::text;
use crate::text::{push_decimal, push_text};

verus! {

/// Messages to the reactor.
#[derive(Clone, Copy, Debug, PartialEq, Eq, Structural)]
pub enum Control {
    /// The accepted layer and the path have changed.
    PathChange(Accepts, PathProperties),
    /// The end, after all that came before it.
    Shutdown,
}

/// What happened to a flow.
#[derive(Clone, Copy, Debug, PartialEq, Eq, Structural)]
pub enum FlowEvent {
    ReassemblyDiscarded,
    DatagramDropped(InternalEndpoint),
    TransmitDropped,
    QuicSteered,
    PathReported(InternalEndpoint),
    StreamOpened(InternalEndpoint),
    DatagramOpened(InternalEndpoint),
    Resteered(InternalEndpoint),
    FlowTornDown(InternalEndpoint),
}

/// One observation. Counts are since the last report.
#[derive(Debug, PartialEq, Eq)]
pub enum Telemetry {
    Event(FlowEvent),
    DatagramsDropped(u64),
    PacketsRejected(u64),
    ReassemblyDiscarded(u64),
    TransmitsDropped(u64),
    EgressRejected(u64),
    QuicSteered(u64),
    PathsReported(u64),
    Resolved(Resolution),
    QueriesDropped(u64),
    PolicyReloaded(usize),
    TerminationDropped(u64),
    TasksPanicked(u64),
    Lost(u64),
}

/// What a report counts.
#[derive(Clone, Copy, Debug, PartialEq, Eq, Structural)]
pub enum Loss {
    Datagram,
    Packet,
    Egress,
    Query,
    Termination,
}

/// Counts between two reports.
#[derive(Clone, Copy, Debug, PartialEq, Eq, Structural)]
pub struct Counters {
    pub datagrams_dropped: u64,
    pub packets_rejected: u64,
    pub reassembly_discarded: u64,
    pub transmits_dropped: u64,
    pub egress_rejected: u64,
    pub queries_dropped: u64,
    pub quic_steered: u64,
    pub paths_reported: u64,
    pub termination_dropped: u64,
}

/// One more, as far as a `u64` counts.
pub open spec fn more(n: u64) -> u64 {
    if n < u64::MAX {
        (n + 1) as u64
    } else {
        u64::MAX
    }
}

/// No counts.
pub open spec fn no_counts() -> Counters {
    Counters {
        datagrams_dropped: 0,
        packets_rejected: 0,
        reassembly_discarded: 0,
        transmits_dropped: 0,
        egress_rejected: 0,
        queries_dropped: 0,
        quic_steered: 0,
        paths_reported: 0,
        termination_dropped: 0,
    }
}

/// The counts with one more loss.
pub open spec fn with_loss(c: Counters, loss: Loss) -> Counters {
    match loss {
        Loss::Datagram => Counters { datagrams_dropped: more(c.datagrams_dropped), ..c },
        Loss::Packet => Counters { packets_rejected: more(c.packets_rejected), ..c },
        Loss::Egress => Counters { egress_rejected: more(c.egress_rejected), ..c },
        Loss::Query => Counters { queries_dropped: more(c.queries_dropped), ..c },
        Loss::Termination => Counters { termination_dropped: more(c.termination_dropped), ..c },
    }
}

/// The counts with one more event, where events of its kind are counted.
pub open spec fn with_event(c: Counters, event: FlowEvent) -> Option<Counters> {
    match event {
        FlowEvent::ReassemblyDiscarded => Some(
            Counters { reassembly_discarded: more(c.reassembly_discarded), ..c },
        ),
        FlowEvent::DatagramDropped(_) => Some(
            Counters { datagrams_dropped: more(c.datagrams_dropped), ..c },
        ),
        FlowEvent::TransmitDropped => Some(
            Counters { transmits_dropped: more(c.transmits_dropped), ..c },
        ),
        FlowEvent::QuicSteered => Some(Counters { quic_steered: more(c.quic_steered), ..c }),
        FlowEvent::PathReported(_) => Some(Counters { paths_reported: more(c.paths_reported), ..c }),
        _ => None,
    }
}

/// Every count of a report, in the order of reporting.
pub open spec fn lines(c: Counters, panicked: u64) -> Seq<Telemetry> {
    seq![
        Telemetry::DatagramsDropped(c.datagrams_dropped),
        Telemetry::PacketsRejected(c.packets_rejected),
        Telemetry::ReassemblyDiscarded(c.reassembly_discarded),
        Telemetry::TransmitsDropped(c.transmits_dropped),
        Telemetry::EgressRejected(c.egress_rejected),
        Telemetry::QueriesDropped(c.queries_dropped),
        Telemetry::QuicSteered(c.quic_steered),
        Telemetry::PathsReported(c.paths_reported),
        Telemetry::TerminationDropped(c.termination_dropped),
        Telemetry::TasksPanicked(panicked),
    ]
}

/// What an observation counts.
pub open spec fn counted(t: Telemetry) -> u64 {
    match t {
        Telemetry::DatagramsDropped(n) => n,
        Telemetry::PacketsRejected(n) => n,
        Telemetry::ReassemblyDiscarded(n) => n,
        Telemetry::TransmitsDropped(n) => n,
        Telemetry::EgressRejected(n) => n,
        Telemetry::QuicSteered(n) => n,
        Telemetry::PathsReported(n) => n,
        Telemetry::QueriesDropped(n) => n,
        Telemetry::TerminationDropped(n) => n,
        Telemetry::TasksPanicked(n) => n,
        Telemetry::Lost(n) => n,
        _ => 0,
    }
}

/// The counts that are not zero, in order.
pub open spec fn reported(list: Seq<Telemetry>) -> Seq<Telemetry>
    decreases list.len(),
{
    if list.len() == 0 {
        seq![]
    } else if counted(list.last()) > 0 {
        reported(list.drop_last()).push(list.last())
    } else {
        reported(list.drop_last())
    }
}

fn push_count(into: &mut Vec<Telemetry>, n: u64, line: Telemetry, Ghost(before): Ghost<
    Seq<Telemetry>,
>)
    requires
        old(into)@ == reported(before),
        n == counted(line),
    ensures
        final(into)@ == reported(before.push(line)),
{
    assert(before.push(line).drop_last() =~= before);
    if n > 0 {
        into.push(line);
    }
}

impl Counters {
    pub fn new() -> (r: Self)
        ensures
            r == no_counts(),
    {
        Counters {
            datagrams_dropped: 0,
            packets_rejected: 0,
            reassembly_discarded: 0,
            transmits_dropped: 0,
            egress_rejected: 0,
            queries_dropped: 0,
            quic_steered: 0,
            paths_reported: 0,
            termination_dropped: 0,
        }
    }

    /// Counts what a queue or a peer refused.
    pub fn lose(&mut self, loss: Loss)
        ensures
            *final(self) == with_loss(*old(self), loss),
    {
        match loss {
            Loss::Datagram => {
                self.datagrams_dropped = self.datagrams_dropped.saturating_add(1);
            },
            Loss::Packet => {
                self.packets_rejected = self.packets_rejected.saturating_add(1);
            },
            Loss::Egress => {
                self.egress_rejected = self.egress_rejected.saturating_add(1);
            },
            Loss::Query => {
                self.queries_dropped = self.queries_dropped.saturating_add(1);
            },
            Loss::Termination => {
                self.termination_dropped = self.termination_dropped.saturating_add(1);
            },
        }
    }

    /// Counts an event, or gives back one that is reported on its own.
    pub fn event(&mut self, event: FlowEvent) -> (r: Option<Telemetry>)
        ensures
            match with_event(*old(self), event) {
                Some(c) => r is None && *final(self) == c,
                None => r == Some(Telemetry::Event(event)) && *final(self) == *old(self),
            },
    {
        match event {
            FlowEvent::ReassemblyDiscarded => {
                self.reassembly_discarded = self.reassembly_discarded.saturating_add(1);
                None
            },
            FlowEvent::DatagramDropped(_) => {
                self.datagrams_dropped = self.datagrams_dropped.saturating_add(1);
                None
            },
            FlowEvent::TransmitDropped => {
                self.transmits_dropped = self.transmits_dropped.saturating_add(1);
                None
            },
            FlowEvent::QuicSteered => {
                self.quic_steered = self.quic_steered.saturating_add(1);
                None
            },
            FlowEvent::PathReported(_) => {
                self.paths_reported = self.paths_reported.saturating_add(1);
                None
            },
            other => Some(Telemetry::Event(other)),
        }
    }

    /// Reports every count that is not zero, together with the tasks that
    /// panicked, and starts again from nothing.
    pub fn flush(&mut self, panicked: u64) -> (r: Vec<Telemetry>)
        ensures
            r@ == reported(lines(*old(self), panicked)),
            *final(self) == no_counts(),
    {
        let c: Counters = *self;
        let ghost all = lines(c, panicked);
        let mut r: Vec<Telemetry> = Vec::new();
        assert(r@ =~= reported(all.take(0)));
        push_count(
            &mut r,
            c.datagrams_dropped,
            Telemetry::DatagramsDropped(c.datagrams_dropped),
            Ghost(all.take(0)),
        );
        assert(all.take(0).push(all[0]) =~= all.take(1));
        push_count(
            &mut r,
            c.packets_rejected,
            Telemetry::PacketsRejected(c.packets_rejected),
            Ghost(all.take(1)),
        );
        assert(all.take(1).push(all[1]) =~= all.take(2));
        push_count(
            &mut r,
            c.reassembly_discarded,
            Telemetry::ReassemblyDiscarded(c.reassembly_discarded),
            Ghost(all.take(2)),
        );
        assert(all.take(2).push(all[2]) =~= all.take(3));
        push_count(
            &mut r,
            c.transmits_dropped,
            Telemetry::TransmitsDropped(c.transmits_dropped),
            Ghost(all.take(3)),
        );
        assert(all.take(3).push(all[3]) =~= all.take(4));
        push_count(
            &mut r,
            c.egress_rejected,
            Telemetry::EgressRejected(c.egress_rejected),
            Ghost(all.take(4)),
        );
        assert(all.take(4).push(all[4]) =~= all.take(5));
        push_count(
            &mut r,
            c.queries_dropped,
            Telemetry::QueriesDropped(c.queries_dropped),
            Ghost(all.take(5)),
        );
        assert(all.take(5).push(all[5]) =~= all.take(6));
        push_count(
            &mut r,
            c.quic_steered,
            Telemetry::QuicSteered(c.quic_steered),
            Ghost(all.take(6)),
        );
        assert(all.take(6).push(all[6]) =~= all.take(7));
        push_count(
            &mut r,
            c.paths_reported,
            Telemetry::PathsReported(c.paths_reported),
            Ghost(all.take(7)),
        );
        assert(all.take(7).push(all[7]) =~= all.take(8));
        push_count(
            &mut r,
            c.termination_dropped,
            Telemetry::TerminationDropped(c.termination_dropped),
            Ghost(all.take(8)),
        );
        assert(all.take(8).push(all[8]) =~= all.take(9));
        push_count(&mut r, panicked, Telemetry::TasksPanicked(panicked), Ghost(all.take(9)));
        assert(all.take(9).push(all[9]) =~= all);
        *self = Counters::new();
        r
    }
}

/// A report says every count that is not zero, and no count of zero.
pub proof fn a_report_says_exactly_what_was_lost(list: Seq<Telemetry>)
    ensures
        forall|i: int| 0 <= i < reported(list).len() ==> counted(#[trigger] reported(list)[i]) > 0,
        forall|i: int|
            0 <= i < list.len() && counted(list[i]) > 0 ==> reported(list).contains(
                #[trigger] list[i],
            ),
    decreases list.len(),
{
    if list.len() > 0 {
        let rest = list.drop_last();
        a_report_says_exactly_what_was_lost(rest);
        let before = reported(rest);
        let all = reported(list);
        assert forall|i: int| 0 <= i < list.len() && counted(list[i]) > 0 implies all.contains(
            #[trigger] list[i],
        ) by {
            if i < rest.len() {
                assert(rest[i] == list[i]);
                assert(before.contains(list[i]));
                let k = choose|k: int| 0 <= k < before.len() && before[k] == list[i];
                assert(all[k] == list[i]);
            } else {
                assert(all[before.len() as int] == list[i]);
            }
        }
    }
}

/// Observations that a full channel refused, and that no report has named yet.
#[derive(Clone, Copy, Debug, PartialEq, Eq, Structural)]
pub struct TelemetrySink {
    pub lost: u64,
}

impl TelemetrySink {
    pub fn new() -> (r: Self)
        ensures
            r.lost == 0,
    {
        TelemetrySink { lost: 0 }
    }

    /// Takes whether the channel took an observation; gives back what was lost
    /// before, to be reported while there is room.
    pub fn offered(&mut self, taken: bool) -> (r: Option<u64>)
        ensures
            r == (if taken && old(self).lost > 0 {
                Some(old(self).lost)
            } else {
                None
            }),
            final(self).lost == (if taken {
                old(self).lost
            } else {
                more(old(self).lost)
            }),
    {
        if !taken {
            self.lost = self.lost.saturating_add(1);
            return None;
        }
        if self.lost > 0 {
            Some(self.lost)
        } else {
            None
        }
    }

    /// Takes whether the channel took the report of what was lost.
    pub fn confessed(&mut self, taken: bool)
        ensures
            final(self).lost == (if taken {
                0
            } else {
                old(self).lost
            }),
    {
        if taken {
            self.lost = 0;
        }
    }
}

/// Tasks that ended by panicking, which no task should.
#[derive(Clone, Copy, Debug, PartialEq, Eq, Structural)]
pub struct Panics {
    pub count: u64,
}

impl Panics {
    pub fn new() -> (r: Self)
        ensures
            r.count == 0,
    {
        Panics { count: 0 }
    }

    /// Takes how a task ended: one that was cancelled is not counted.
    pub fn ended(&mut self, panicked: bool)
        ensures
            final(self).count == (if panicked {
                more(old(self).count)
            } else {
                old(self).count
            }),
    {
        if panicked {
            self.count = self.count.saturating_add(1);
        }
    }

    /// The count since the last time it was taken.
    pub fn take(&mut self) -> (n: u64)
        ensures
            n == old(self).count,
            final(self).count == 0,
    {
        let n: u64 = self.count;
        self.count = 0;
        n
    }
}

/// Half a second, in nanoseconds.
pub const TELEMETRY_NANOS: u128 = 500_000_000;

/// When the reactor reports and when it ticks its egress.
#[derive(Clone, Copy, Debug, PartialEq, Eq, Structural)]
pub struct ReactorClock {
    pub next_flush: Instant,
    pub next_tick: Instant,
    pub tick_interval: Duration,
}

/// The earlier of two points in time.
pub open spec fn earlier(a: u128, b: Option<Instant>) -> u128 {
    match b {
        Some(at) if at.nanos < a => at.nanos,
        _ => a,
    }
}

/// Whether a deadline has come.
pub open spec fn has_come(deadline: Option<Instant>, now: Instant) -> bool {
    deadline matches Some(at) && at.nanos <= now.nanos
}

impl ReactorClock {
    pub fn new(now: Instant, tick_interval: Duration) -> (r: Self)
        requires
            now.nanos + TELEMETRY_NANOS <= u128::MAX,
            now.nanos + tick_interval.nanos <= u128::MAX,
        ensures
            r.next_flush.nanos == now.nanos + TELEMETRY_NANOS,
            r.next_tick.nanos == now.nanos + tick_interval.nanos,
            r.tick_interval == tick_interval,
    {
        ReactorClock {
            next_flush: Instant { nanos: now.nanos + TELEMETRY_NANOS },
            next_tick: Instant { nanos: now.nanos + tick_interval.nanos },
            tick_interval,
        }
    }

    /// When the reactor wakes: at the first of all deadlines.
    pub fn wake(&self, core: Option<Instant>, egress: Option<Instant>) -> (r: Instant)
        ensures
            r.nanos == earlier(
                earlier(
                    if self.next_flush.nanos < self.next_tick.nanos {
                        self.next_flush.nanos
                    } else {
                        self.next_tick.nanos
                    },
                    core,
                ),
                egress,
            ),
            r.nanos <= self.next_flush.nanos,
            r.nanos <= self.next_tick.nanos,
            core matches Some(at) ==> r.nanos <= at.nanos,
            egress matches Some(at) ==> r.nanos <= at.nanos,
    {
        let mut first: u128 = if self.next_flush.nanos < self.next_tick.nanos {
            self.next_flush.nanos
        } else {
            self.next_tick.nanos
        };
        match core {
            Some(at) => {
                if at.nanos < first {
                    first = at.nanos;
                }
            },
            None => {},
        }
        match egress {
            Some(at) => {
                if at.nanos < first {
                    first = at.nanos;
                }
            },
            None => {},
        }
        Instant { nanos: first }
    }

    /// Whether the core's timers are fired.
    pub fn core_due(&self, core: Option<Instant>, now: Instant) -> (r: bool)
        ensures
            r == has_come(core, now),
    {
        match core {
            Some(at) => at.nanos <= now.nanos,
            None => false,
        }
    }

    /// Whether the egress is ticked: at its interval, or at a deadline of its
    /// own. Either starts the interval again.
    pub fn tick_due(&mut self, egress: Option<Instant>, now: Instant) -> (r: bool)
        requires
            now.nanos + old(self).tick_interval.nanos <= u128::MAX,
        ensures
            r == (now.nanos >= old(self).next_tick.nanos || has_come(egress, now)),
            final(self).next_tick.nanos == (if r {
                now.nanos + old(self).tick_interval.nanos
            } else {
                old(self).next_tick.nanos as int
            }),
            final(self).next_flush == old(self).next_flush,
            final(self).tick_interval == old(self).tick_interval,
    {
        let due: bool = match egress {
            Some(at) => at.nanos <= now.nanos,
            None => false,
        };
        if now.nanos >= self.next_tick.nanos || due {
            self.next_tick = Instant { nanos: now.nanos + self.tick_interval.nanos };
            true
        } else {
            false
        }
    }

    /// Whether the counts are reported. That starts the interval again.
    pub fn flush_due(&mut self, now: Instant) -> (r: bool)
        requires
            now.nanos + TELEMETRY_NANOS <= u128::MAX,
        ensures
            r == (now.nanos >= old(self).next_flush.nanos),
            final(self).next_flush.nanos == (if r {
                now.nanos + TELEMETRY_NANOS
            } else {
                old(self).next_flush.nanos as int
            }),
            final(self).next_tick == old(self).next_tick,
            final(self).tick_interval == old(self).tick_interval,
    {
        if now.nanos >= self.next_flush.nanos {
            self.next_flush = Instant { nanos: now.nanos + TELEMETRY_NANOS };
            true
        } else {
            false
        }
    }
}

/// A packet that was written only in part: an IP packet cannot be resumed.
#[derive(Clone, Copy, Debug, PartialEq, Eq, Structural)]
pub struct ShortWrite {
    pub written: usize,
    pub expected: usize,
}

impl ShortWrite {
    pub fn text(&self) -> (r: String)
        ensures
            r@ == "wrote "@ + text::decimal(self.written as nat) + " of "@ + text::decimal(
                self.expected as nat,
            ) + " packet bytes"@,
    {
        let mut r = String::new();
        push_text(&mut r, "wrote ");
        push_decimal(&mut r, self.written as u64);
        push_text(&mut r, " of ");
        push_decimal(&mut r, self.expected as u64);
        push_text(&mut r, " packet bytes");
        assert(r@ =~= "wrote "@ + text::decimal(self.written as nat) + " of "@ + text::decimal(
            self.expected as nat,
        ) + " packet bytes"@);
        r
    }
}

/// Whether a write was whole.
pub fn whole(written: usize, expected: usize) -> (r: Result<(), ShortWrite>)
    ensures
        r == (if written == expected {
            Ok::<(), ShortWrite>(())
        } else {
            Err(ShortWrite { written, expected })
        }),
{
    if written == expected {
        Ok(())
    } else {
        Err(ShortWrite { written, expected })
    }
}

/// The code of an answer.
#[derive(Clone, Copy, Debug, PartialEq, Eq, Structural)]
pub enum Rcode {
    NoError,
    NameError,
    ServerFailure,
    Other(u8),
}

/// Who decided an answer.
#[derive(Clone, Copy, Debug, PartialEq, Eq, Structural)]
pub enum Provenance {
    Policy,
    Upstream,
}

/// How a query was answered, and why.
#[derive(Clone, Debug, PartialEq, Eq)]
pub struct Resolution {
    pub name: Name,
    pub qtype: u16,
    pub rcode: Rcode,
    pub answers: u16,
    pub provenance: Provenance,
    /// The rule that refused it.
    pub rule: Option<Name>,
}

/// What is done with a query.
#[derive(Clone, Debug, PartialEq, Eq)]
pub enum QueryPlan {
    /// It never leaves the device.
    Refuse { rule: Name },
    /// It goes upstream.
    Forward,
}

/// Plans a query for `name`: exactly a name that the policy blocks is refused,
/// with the rule that blocks it.
pub fn plan_query(name: &Name, policy: &HostPolicy) -> (r: QueryPlan)
    requires
        policy.wf(),
    ensures
        match hosts::judged(policy@, name@) {
            (HostVerdict::Blocked, Some(rule)) => r matches QueryPlan::Refuse { rule: named }
                && named@ == rule,
            _ => r is Forward,
        },
        hosts::judged(policy@, name@).0 == HostVerdict::Blocked <==> r is Refuse,
{
    let judgment = policy.judge(name);
    match judgment.verdict {
        HostVerdict::Blocked => match judgment.matched {
            Some(rule) => QueryPlan::Refuse { rule },
            None => QueryPlan::Forward,
        },
        HostVerdict::Allowed => QueryPlan::Forward,
    }
}

/// The answer to a query that the policy refused.
pub fn refused(name: Name, qtype: u16, rule: Name) -> (r: Resolution)
    ensures
        r == (Resolution {
            name,
            qtype,
            rcode: Rcode::NameError,
            answers: 0,
            provenance: Provenance::Policy,
            rule: Some(rule),
        }),
{
    Resolution {
        name,
        qtype,
        rcode: Rcode::NameError,
        answers: 0,
        provenance: Provenance::Policy,
        rule: Some(rule),
    }
}

/// The answer to a query that went upstream, given the code and the answers of
/// a reply that could be rewritten. Its addresses are kept where inspection
/// steers by them; those of one that could not be rewritten are not.
pub fn forwarded(
    name: Name,
    qtype: u16,
    reply: Option<(Rcode, u16)>,
    steers: bool,
    addresses: &mut Vec<IpAddr>,
) -> (r: Resolution)
    ensures
        r.name == name,
        r.qtype == qtype,
        r.provenance == Provenance::Upstream,
        r.rule is None,
        match reply {
            Some((rcode, answers)) => r.rcode == rcode && r.answers == answers,
            None => r.rcode == Rcode::ServerFailure && r.answers == 0,
        },
        final(addresses)@ == (if reply is Some && steers {
            old(addresses)@
        } else {
            seq![]
        }),
{
    if !(steers && reply.is_some()) {
        addresses.clear();
        assert(addresses@ =~= seq![]);
    }
    let (rcode, answers): (Rcode, u16) = match reply {
        Some((rcode, answers)) => (rcode, answers),
        None => (Rcode::ServerFailure, 0),
    };
    Resolution { name, qtype, rcode, answers, provenance: Provenance::Upstream, rule: None }
}

/// A loss is counted once, under its own kind, and no other count grows.
pub proof fn a_loss_counts_once(c: &mut Counters, loss: Loss, r: ())
    requires
        call_ensures(Counters::lose, (c, loss), r),
        old(c).datagrams_dropped < u64::MAX,
        old(c).packets_rejected < u64::MAX,
        old(c).egress_rejected < u64::MAX,
        old(c).queries_dropped < u64::MAX,
        old(c).termination_dropped < u64::MAX,
    ensures
        final(c).datagrams_dropped == old(c).datagrams_dropped + (if loss == Loss::Datagram { 1int } else { 0 }),
        final(c).packets_rejected == old(c).packets_rejected + (if loss == Loss::Packet { 1int } else { 0 }),
        final(c).egress_rejected == old(c).egress_rejected + (if loss == Loss::Egress { 1int } else { 0 }),
        final(c).queries_dropped == old(c).queries_dropped + (if loss == Loss::Query { 1int } else { 0 }),
        final(c).termination_dropped == old(c).termination_dropped + (if loss == Loss::Termination {
            1int
        } else {
            0
        }),
        final(c).reassembly_discarded == old(c).reassembly_discarded,
        final(c).transmits_dropped == old(c).transmits_dropped,
        final(c).quic_steered == old(c).quic_steered,
        final(c).paths_reported == old(c).paths_reported,
{
}

/// An event is counted or reported on its own, never both and never neither: losses,
/// steering and reported paths are counted, and what happens to one flow is reported
/// with that flow.
pub proof fn an_event_is_counted_or_reported(c: &mut Counters, event: FlowEvent, r: Option<Telemetry>)
    requires
        call_ensures(Counters::event, (c, event), r),
    ensures
        event is StreamOpened || event is DatagramOpened || event is Resteered || event is FlowTornDown <==> r
            == Some(Telemetry::Event(event)),
        r is None || r == Some(Telemetry::Event(event)),
        r is Some ==> *final(c) == *old(c),
        event == FlowEvent::ReassemblyDiscarded && old(c).reassembly_discarded < u64::MAX ==> *final(c) == (Counters {
            reassembly_discarded: (old(c).reassembly_discarded + 1) as u64,
            ..*old(c)
        }),
        event is DatagramDropped && old(c).datagrams_dropped < u64::MAX ==> *final(c) == (Counters {
            datagrams_dropped: (old(c).datagrams_dropped + 1) as u64,
            ..*old(c)
        }),
        event == FlowEvent::TransmitDropped && old(c).transmits_dropped < u64::MAX ==> *final(c) == (Counters {
            transmits_dropped: (old(c).transmits_dropped + 1) as u64,
            ..*old(c)
        }),
        event == FlowEvent::QuicSteered && old(c).quic_steered < u64::MAX ==> *final(c) == (Counters {
            quic_steered: (old(c).quic_steered + 1) as u64,
            ..*old(c)
        }),
        event is PathReported && old(c).paths_reported < u64::MAX ==> *final(c) == (Counters {
            paths_reported: (old(c).paths_reported + 1) as u64,
            ..*old(c)
        }),
{
}

/// A report names each count that is not zero, under its own name, and leaves nothing
/// behind to be reported twice.
pub proof fn a_flush_reports_every_count(c: &mut Counters, panicked: u64, r: Vec<Telemetry>)
    requires
        call_ensures(Counters::flush, (c, panicked), r),
    ensures
        old(c).datagrams_dropped > 0 ==> r@.contains(Telemetry::DatagramsDropped(old(c).datagrams_dropped)),
        old(c).packets_rejected > 0 ==> r@.contains(Telemetry::PacketsRejected(old(c).packets_rejected)),
        old(c).reassembly_discarded > 0 ==> r@.contains(Telemetry::ReassemblyDiscarded(old(c).reassembly_discarded)),
        old(c).transmits_dropped > 0 ==> r@.contains(Telemetry::TransmitsDropped(old(c).transmits_dropped)),
        old(c).egress_rejected > 0 ==> r@.contains(Telemetry::EgressRejected(old(c).egress_rejected)),
        old(c).queries_dropped > 0 ==> r@.contains(Telemetry::QueriesDropped(old(c).queries_dropped)),
        old(c).quic_steered > 0 ==> r@.contains(Telemetry::QuicSteered(old(c).quic_steered)),
        old(c).paths_reported > 0 ==> r@.contains(Telemetry::PathsReported(old(c).paths_reported)),
        old(c).termination_dropped > 0 ==> r@.contains(Telemetry::TerminationDropped(old(c).termination_dropped)),
        panicked > 0 ==> r@.contains(Telemetry::TasksPanicked(panicked)),
        forall|i: int| 0 <= i < r@.len() ==> counted(#[trigger] r@[i]) > 0,
        final(c).datagrams_dropped == 0 && final(c).packets_rejected == 0 && final(c).reassembly_discarded == 0,
        final(c).transmits_dropped == 0 && final(c).egress_rejected == 0 && final(c).queries_dropped == 0,
        final(c).quic_steered == 0 && final(c).paths_reported == 0 && final(c).termination_dropped == 0,
{
    let all = lines(*old(c), panicked);
    a_report_says_exactly_what_was_lost(all);
    assert(all[0] == Telemetry::DatagramsDropped(old(c).datagrams_dropped));
    assert(all[1] == Telemetry::PacketsRejected(old(c).packets_rejected));
    assert(all[2] == Telemetry::ReassemblyDiscarded(old(c).reassembly_discarded));
    assert(all[3] == Telemetry::TransmitsDropped(old(c).transmits_dropped));
    assert(all[4] == Telemetry::EgressRejected(old(c).egress_rejected));
    assert(all[5] == Telemetry::QueriesDropped(old(c).queries_dropped));
    assert(all[6] == Telemetry::QuicSteered(old(c).quic_steered));
    assert(all[7] == Telemetry::PathsReported(old(c).paths_reported));
    assert(all[8] == Telemetry::TerminationDropped(old(c).termination_dropped));
    assert(all[9] == Telemetry::TasksPanicked(panicked));
}

/// An observation that a full channel refused is confessed as soon as one is taken, and
/// no longer once the confession is taken.
pub proof fn what_was_lost_is_confessed(s: &mut TelemetrySink, taken: bool, r: Option<u64>)
    requires
        call_ensures(TelemetrySink::offered, (s, taken), r),
    ensures
        !taken && old(s).lost < u64::MAX ==> final(s).lost == old(s).lost + 1 && r is None,
        taken ==> final(s).lost == old(s).lost,
        taken && old(s).lost == 0 ==> r is None,
        taken && old(s).lost > 0 ==> r == Some(old(s).lost),
{
}

/// The reactor wakes at the first of its deadlines: no later than any, and exactly at
/// one of them.
pub proof fn the_reactor_wakes_at_the_first_deadline(
    clock: &ReactorClock,
    core: Option<Instant>,
    egress: Option<Instant>,
    r: Instant,
)
    requires
        call_ensures(ReactorClock::wake, (clock, core, egress), r),
    ensures
        r.nanos <= clock.next_flush.nanos,
        r.nanos <= clock.next_tick.nanos,
        core is Some ==> r.nanos <= core->0.nanos,
        egress is Some ==> r.nanos <= egress->0.nanos,
        r.nanos == clock.next_flush.nanos || r.nanos == clock.next_tick.nanos || (core is Some && r.nanos
            == core->0.nanos) || (egress is Some && r.nanos == egress->0.nanos),
{
}

/// A query is refused exactly if its name is at or under a blocked name and at or under
/// no exempted one, and the rule that refuses it is named.
pub proof fn a_query_is_refused_for_a_blocked_name(name: &Name, policy: &HostPolicy, r: QueryPlan)
    requires
        policy.wf(),
        call_ensures(plan_query, (name, policy), r),
    ensures
        r is Refuse <==> (exists|rule: Seq<char>|
            policy@.blocked.contains(rule) && #[trigger] hosts::under(name@, rule)) && !(exists|rule: Seq<char>|
            policy@.allowed.contains(rule) && #[trigger] hosts::under(name@, rule)),
        r matches QueryPlan::Refuse { rule } ==> policy@.blocked.contains(rule@) && hosts::under(name@, rule@),
{
    hosts::only_names_under_a_block_are_blocked(policy@, name@);
    hosts::closest_finds_every_rule_above(policy@.blocked, name@);
}

/// A refused name does not exist, by policy and by its rule; a forwarded one is what
/// upstream said, or a failure where upstream could not be read.
pub proof fn an_answer_says_who_decided(name: Name, qtype: u16, rule: Name, r: Resolution)
    requires
        call_ensures(refused, (name, qtype, rule), r),
    ensures
        r.rcode == Rcode::NameError,
        r.answers == 0,
        r.provenance == Provenance::Policy,
        r.rule == Some(rule),
        r.name == name && r.qtype == qtype,
{
}

/// The same of a query that went upstream. Its addresses are kept exactly where they
/// steer inspection and the reply could be read.
pub proof fn a_forwarded_answer_is_upstreams(
    name: Name,
    qtype: u16,
    reply: Option<(Rcode, u16)>,
    steers: bool,
    addresses: &mut Vec<IpAddr>,
    r: Resolution,
)
    requires
        call_ensures(forwarded, (name, qtype, reply, steers, addresses), r),
    ensures
        r.provenance == Provenance::Upstream,
        r.rule is None,
        r.name == name && r.qtype == qtype,
        reply matches Some((rcode, answers)) ==> r.rcode == rcode && r.answers == answers,
        reply is None ==> r.rcode == Rcode::ServerFailure && r.answers == 0,
        reply is Some && steers ==> final(addresses)@ == old(addresses)@,
        reply is None || !steers ==> final(addresses)@.len() == 0,
{
}

/// A packet is written whole or is an error that says how much of it was.
pub proof fn a_packet_is_written_whole(written: usize, expected: usize, r: Result<(), ShortWrite>)
    requires
        call_ensures(whole, (written, expected), r),
    ensures
        r is Ok <==> written == expected,
        r matches Err(e) ==> e.written == written && e.expected == expected,
{
}

} // verus!
