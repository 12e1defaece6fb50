//! The reactor's state: its schedule and its counts.
//!
//! A packet that is refused is counted and stops nothing. A device or a network
//! that fails stops the reactor, and so does its owner.

use vstd::prelude::*;

use crate::clock::{Duration, Instant};
#[allow(unused_imports)]
use crate::host::shell;
use crate::host::shell::{
    Control, Counters, FlowEvent, Loss, ReactorClock, Resolution, Telemetry, TELEMETRY_NANOS,
};
use crate::l3::udp::SendOutcome;
use crate::plan::{Accepts, PathProperties};

verus! {

/// How a read ended.
#[derive(Clone, Copy, Debug, PartialEq, Eq, Structural)]
pub enum Read {
    /// What was read was taken.
    Taken,
    /// What was read was refused.
    Refused,
    /// A signal came first.
    Interrupted,
    Failed,
}

/// What the reactor woke for.
#[derive(Debug, PartialEq, Eq)]
pub enum Happening {
    Cancelled,
    /// A message of the owner; none comes from an owner that is gone.
    Message(Option<Control>),
    /// A datagram from the relay, and what its flow did with it; none if it was
    /// refused.
    Relayed(Option<SendOutcome>),
    Device(Read),
    Network(Read),
    /// The host rules were replaced, by so many.
    Reloaded(usize),
    /// A query was resolved, and its answer taken or not.
    Answered { taken: bool, resolution: Resolution },
    /// A segment from the terminator.
    Segment,
    Timer,
}

/// What the reactor does about it.
#[derive(Debug, PartialEq, Eq)]
pub enum Reaction {
    Nothing,
    /// The path changed.
    Change(Accepts, PathProperties),
    Report(Telemetry),
    Stop,
    /// The read's failure ends the reactor.
    Fail,
}

/// What the reactor does about a happening.
pub open spec fn reaction_to(h: Happening) -> Reaction {
    match h {
        Happening::Cancelled => Reaction::Stop,
        Happening::Message(Some(Control::PathChange(accepts, path))) => Reaction::Change(
            accepts,
            path,
        ),
        Happening::Message(_) => Reaction::Stop,
        Happening::Device(Read::Failed) => Reaction::Fail,
        Happening::Network(Read::Failed) => Reaction::Fail,
        Happening::Reloaded(rules) => Reaction::Report(Telemetry::PolicyReloaded(rules)),
        Happening::Answered { taken: _, resolution } => Reaction::Report(
            Telemetry::Resolved(resolution),
        ),
        _ => Reaction::Nothing,
    }
}

/// What is lost by a happening.
pub open spec fn loss_in(h: Happening) -> Option<Loss> {
    match h {
        Happening::Relayed(Some(SendOutcome::Dropped)) => Some(Loss::Datagram),
        Happening::Relayed(None) => Some(Loss::Packet),
        Happening::Device(Read::Refused) => Some(Loss::Packet),
        Happening::Network(Read::Refused) => Some(Loss::Egress),
        Happening::Answered { taken: false, resolution: _ } => Some(Loss::Packet),
        _ => None,
    }
}

/// The counts after a loss, if there was one.
pub open spec fn after_loss(c: Counters, loss: Option<Loss>) -> Counters {
    match loss {
        Some(loss) => shell::with_loss(c, loss),
        None => c,
    }
}

/// What is due.
#[derive(Clone, Copy, Debug, PartialEq, Eq, Structural)]
pub struct Due {
    /// The core's timers are fired.
    pub core: bool,
    /// The egress is ticked.
    pub tick: bool,
    /// The counts are reported, after everything that is given out has gone.
    pub flush: bool,
}

/// The reactor between two wakes.
#[derive(Clone, Copy, Debug, PartialEq, Eq, Structural)]
pub struct Reactor {
    pub clock: ReactorClock,
    pub counters: Counters,
}

impl Reactor {
    pub fn new(now: Instant, tick_interval: Duration) -> (r: Self)
        requires
            now.nanos + TELEMETRY_NANOS <= u128::MAX,
            now.nanos + tick_interval.nanos <= u128::MAX,
        ensures
            r.clock.next_flush.nanos == now.nanos + TELEMETRY_NANOS,
            r.clock.next_tick.nanos == now.nanos + tick_interval.nanos,
            r.clock.tick_interval == tick_interval,
            r.counters == shell::no_counts(),
    {
        Reactor { clock: ReactorClock::new(now, tick_interval), counters: Counters::new() }
    }

    /// Takes what the reactor woke for.
    pub fn happened(&mut self, what: Happening) -> (r: Reaction)
        ensures
            r == reaction_to(what),
            final(self).counters == after_loss(old(self).counters, loss_in(what)),
            final(self).clock == old(self).clock,
    {
        match what {
            Happening::Cancelled => Reaction::Stop,
            Happening::Message(Some(Control::PathChange(accepts, path))) => Reaction::Change(
                accepts,
                path,
            ),
            Happening::Message(_) => Reaction::Stop,
            Happening::Relayed(Some(SendOutcome::Buffered)) => Reaction::Nothing,
            Happening::Relayed(Some(SendOutcome::Dropped)) => {
                self.counters.lose(Loss::Datagram);
                Reaction::Nothing
            },
            Happening::Relayed(None) => {
                self.counters.lose(Loss::Packet);
                Reaction::Nothing
            },
            Happening::Device(read) => match read {
                Read::Refused => {
                    self.counters.lose(Loss::Packet);
                    Reaction::Nothing
                },
                Read::Failed => Reaction::Fail,
                _ => Reaction::Nothing,
            },
            Happening::Network(read) => match read {
                Read::Refused => {
                    self.counters.lose(Loss::Egress);
                    Reaction::Nothing
                },
                Read::Failed => Reaction::Fail,
                _ => Reaction::Nothing,
            },
            Happening::Reloaded(rules) => Reaction::Report(Telemetry::PolicyReloaded(rules)),
            Happening::Answered { taken, resolution } => {
                if !taken {
                    self.counters.lose(Loss::Packet);
                }
                Reaction::Report(Telemetry::Resolved(resolution))
            },
            Happening::Segment => Reaction::Nothing,
            Happening::Timer => Reaction::Nothing,
        }
    }

    /// What is due at `now`, given the deadlines of core and egress.
    pub fn due(&mut self, core: Option<Instant>, egress: Option<Instant>, now: Instant) -> (r: Due)
        requires
            now.nanos + TELEMETRY_NANOS <= u128::MAX,
            now.nanos + old(self).clock.tick_interval.nanos <= u128::MAX,
        ensures
            r.core == shell::has_come(core, now),
            r.tick == (now.nanos >= old(self).clock.next_tick.nanos || shell::has_come(egress, now)),
            r.flush == (now.nanos >= old(self).clock.next_flush.nanos),
            final(self).clock.next_tick.nanos == (if r.tick {
                now.nanos + old(self).clock.tick_interval.nanos
            } else {
                old(self).clock.next_tick.nanos as int
            }),
            final(self).clock.next_flush.nanos == (if r.flush {
                now.nanos + TELEMETRY_NANOS
            } else {
                old(self).clock.next_flush.nanos as int
            }),
            final(self).clock.tick_interval == old(self).clock.tick_interval,
            final(self).counters == old(self).counters,
    {
        let fired: bool = self.clock.core_due(core, now);
        let tick: bool = self.clock.tick_due(egress, now);
        let flush: bool = self.clock.flush_due(now);
        Due { core: fired, tick, flush }
    }

    /// Takes whether what was offered without waiting was taken.
    pub fn offered(&mut self, what: Loss, taken: bool)
        ensures
            final(self).counters == after_loss(
                old(self).counters,
                if taken {
                    None
                } else {
                    Some(what)
                },
            ),
            final(self).clock == old(self).clock,
    {
        if !taken {
            self.counters.lose(what);
        }
    }

    /// Counts an event, or gives back one that is reported on its own.
    pub fn event(&mut self, event: FlowEvent) -> (r: Option<Telemetry>)
        ensures
            match shell::with_event(old(self).counters, event) {
                Some(c) => r is None && final(self).counters == c,
                None => r == Some(Telemetry::Event(event)) && final(self).counters == old(self).counters,
            },
            final(self).clock == old(self).clock,
    {
        self.counters.event(event)
    }

    /// Reports every count that is not zero, and starts again from nothing.
    pub fn flush(&mut self, panicked: u64) -> (r: Vec<Telemetry>)
        ensures
            r@ == shell::reported(shell::lines(old(self).counters, panicked)),
            final(self).counters == shell::no_counts(),
            final(self).clock == old(self).clock,
    {
        self.counters.flush(panicked)
    }
}

/// Only its owner or a device or network that failed ends the reactor: no
/// packet does, whatever became of it.
pub proof fn no_packet_ends_the_reactor(h: Happening)
    ensures
        (reaction_to(h) is Stop || reaction_to(h) is Fail) <==> (h is Cancelled || (h matches Happening::Message(
            message,
        ) && !(message matches Some(Control::PathChange(_, _)))) || h == Happening::Device(
            Read::Failed,
        ) || h == Happening::Network(Read::Failed)),
{
}

/// What is lost is counted: a happening that loses something is in the next
/// report, and one that loses nothing changes no count.
pub proof fn every_loss_is_counted(c: Counters, h: Happening)
    ensures
        loss_in(h) is None ==> after_loss(c, loss_in(h)) == c,
        loss_in(h) matches Some(loss) ==> shell::reported(
            shell::lines(after_loss(c, loss_in(h)), 0),
        ).len() > 0,
{
    if let Some(loss) = loss_in(h) {
        let after = after_loss(c, Some(loss));
        let all = shell::lines(after, 0);
        let i = match loss {
            Loss::Datagram => 0int,
            Loss::Packet => 1,
            Loss::Egress => 4,
            Loss::Query => 5,
            Loss::Termination => 8,
        };
        assert(shell::counted(all[i]) > 0);
        lemma_reported(all, i);
    }
}

proof fn lemma_reported(list: Seq<Telemetry>, i: int)
    requires
        0 <= i < list.len(),
        shell::counted(list[i]) > 0,
    ensures
        shell::reported(list).len() > 0,
    decreases list.len(),
{
    if i < list.len() - 1 {
        assert(list.drop_last()[i] == list[i]);
        lemma_reported(list.drop_last(), i);
    }
}

/// What each happening costs and leads to. A datagram or a packet that was refused is
/// one loss of its kind and nothing else; what was taken costs nothing. The owner's end,
/// a cancellation and a failed device or network end the reactor; a changed path is
/// handed on as it is; new rules and answers are reported.
pub proof fn a_happening_is_counted_and_answered(reactor: &mut Reactor, what: Happening, r: Reaction)
    requires
        call_ensures(Reactor::happened, (reactor, what), r),
    ensures
        what is Cancelled ==> r is Stop,
        what == Happening::Message(None) ==> r is Stop,
        what == Happening::Message(Some(Control::Shutdown)) ==> r is Stop,
        what matches Happening::Message(Some(Control::PathChange(accepts, path))) ==> r == Reaction::Change(
            accepts,
            path,
        ),
        what == Happening::Device(Read::Failed) || what == Happening::Network(Read::Failed) ==> r is Fail,
        what matches Happening::Reloaded(rules) ==> r == Reaction::Report(Telemetry::PolicyReloaded(rules)),
        what matches Happening::Answered { taken, resolution } ==> r == Reaction::Report(
            Telemetry::Resolved(resolution),
        ),
        what is Relayed || what is Segment || what is Timer || what == Happening::Device(Read::Refused) || what
            == Happening::Network(Read::Refused) ==> r is Nothing,
        what == Happening::Relayed(Some(SendOutcome::Dropped)) && old(reactor).counters.datagrams_dropped < u64::MAX
            ==> final(reactor).counters == (Counters {
            datagrams_dropped: (old(reactor).counters.datagrams_dropped + 1) as u64,
            ..old(reactor).counters
        }),
        (what == Happening::Relayed(None) || what == Happening::Device(Read::Refused) || (
        what matches Happening::Answered { taken, .. } && !taken)) && old(reactor).counters.packets_rejected
            < u64::MAX ==> final(reactor).counters == (Counters {
            packets_rejected: (old(reactor).counters.packets_rejected + 1) as u64,
            ..old(reactor).counters
        }),
        what == Happening::Network(Read::Refused) && old(reactor).counters.egress_rejected < u64::MAX
            ==> final(reactor).counters == (Counters {
            egress_rejected: (old(reactor).counters.egress_rejected + 1) as u64,
            ..old(reactor).counters
        }),
        what == Happening::Relayed(Some(SendOutcome::Buffered)) || what == Happening::Device(Read::Taken) || what
            == Happening::Network(Read::Taken) || what == Happening::Device(Read::Interrupted) || what
            == Happening::Network(Read::Interrupted) || (what matches Happening::Answered { taken, .. } && taken)
            || what is Segment || what is Timer || what is Message || what is Cancelled || what is Reloaded
            ==> final(reactor).counters == old(reactor).counters,
        final(reactor).clock == old(reactor).clock,
{
}

/// What is due is what has come: timers at the core's deadline, a tick at its interval or
/// the egress's own deadline, and a report every half second. What was done is due again
/// after its interval, and what was not stays as it was.
pub proof fn what_is_due_is_what_has_come(
    reactor: &mut Reactor,
    core: Option<Instant>,
    egress: Option<Instant>,
    now: Instant,
    r: Due,
)
    requires
        now.nanos + TELEMETRY_NANOS <= u128::MAX,
        now.nanos + old(reactor).clock.tick_interval.nanos <= u128::MAX,
        call_ensures(Reactor::due, (reactor, core, egress, now), r),
    ensures
        r.core <==> core is Some && core->0.nanos <= now.nanos,
        r.tick <==> old(reactor).clock.next_tick.nanos <= now.nanos || (egress is Some && egress->0.nanos <= now.nanos),
        r.flush <==> old(reactor).clock.next_flush.nanos <= now.nanos,
        r.tick ==> final(reactor).clock.next_tick.nanos == now.nanos + old(reactor).clock.tick_interval.nanos,
        !r.tick ==> final(reactor).clock.next_tick == old(reactor).clock.next_tick,
        r.flush ==> final(reactor).clock.next_flush.nanos == now.nanos + 500_000_000,
        !r.flush ==> final(reactor).clock.next_flush == old(reactor).clock.next_flush,
        final(reactor).counters == old(reactor).counters,
{
}

} // verus!
