//! Termination of TCP: which ports are listened on, which connections are
//! live, and how each ends.
//!
//! The sockets themselves are driven elsewhere. What is kept here is the book
//! on them, and the decisions: when another listener is opened, what a socket's
//! state means, and that the ceiling on sockets is never passed.

use vstd::prelude::*;

use crate::addr::InternalEndpoint;
use crate::clock::Instant;
#[allow(unused_imports)]
use crate::reader;
#[allow(unused_imports)]
use crate::text;
use crate::text::{push_decimal, push_text};

verus! {

/// A live connection.
#[derive(Clone, Copy, Debug, PartialEq, Eq, Hash, Structural)]
pub struct StreamId(pub u64);

/// An accepted connection, and both endpoints of it. The server is the
/// destination that the client asked for.
#[derive(Clone, Copy, Debug, PartialEq, Eq, Structural)]
pub struct Terminated {
    pub id: StreamId,
    pub client: InternalEndpoint,
    pub server: InternalEndpoint,
}

/// Why a stream cannot carry bytes.
#[derive(Clone, Copy, Debug, PartialEq, Eq, Structural)]
pub enum StreamError {
    /// The id is not live.
    Unknown,
    /// Not now.
    WouldBlock,
    /// The peer closed this direction.
    Closed,
    /// The peer reset the connection.
    Reset,
}

/// Bounds on memory and sockets.
#[derive(Clone, Copy, Debug, PartialEq, Eq, Structural)]
pub struct TerminationLimits {
    /// Most listeners and connections together.
    pub max_sockets: usize,
    /// Listeners kept for each port.
    pub backlog: usize,
    /// Bytes kept for each direction of a connection.
    pub socket_buffer: usize,
}

/// Why a terminator cannot be made.
#[derive(Clone, Copy, Debug, PartialEq, Eq, Structural)]
pub enum TerminationError {
    /// The ceiling is below one whole backlog for every port.
    SocketsBelowBacklog { ports: usize, backlog: usize, ceiling: usize },
}

impl TerminationError {
    pub fn text(&self) -> (r: String)
        requires
            match self {
                TerminationError::SocketsBelowBacklog { ports, backlog, ceiling: _ } => *ports
                    * *backlog <= usize::MAX,
            },
        ensures
            match self {
                TerminationError::SocketsBelowBacklog { ports, backlog, ceiling } => r@
                    == text::decimal(*ports as nat) + " ports at a backlog of "@ + text::decimal(
                    *backlog as nat,
                ) + " need "@ + text::decimal((*ports * *backlog) as nat) + " sockets, not "@
                    + text::decimal(*ceiling as nat),
            },
    {
        let mut r = String::new();
        match self {
            TerminationError::SocketsBelowBacklog { ports, backlog, ceiling } => {
                push_decimal(&mut r, *ports as u64);
                push_text(&mut r, " ports at a backlog of ");
                push_decimal(&mut r, *backlog as u64);
                push_text(&mut r, " need ");
                push_decimal(&mut r, (*ports * *backlog) as u64);
                push_text(&mut r, " sockets, not ");
                push_decimal(&mut r, *ceiling as u64);
                assert(r@ =~= text::decimal(*ports as nat) + " ports at a backlog of "@
                    + text::decimal(*backlog as nat) + " need "@ + text::decimal(
                    (*ports * *backlog) as nat,
                ) + " sockets, not "@ + text::decimal(*ceiling as nat));
            },
        }
        r
    }
}

/// The state of a socket.
#[derive(Clone, Copy, Debug, PartialEq, Eq, Structural)]
pub enum TcpState {
    Closed,
    Listen,
    SynSent,
    SynReceived,
    Established,
    FinWait1,
    FinWait2,
    CloseWait,
    Closing,
    LastAck,
    TimeWait,
}

/// What a socket says of itself.
#[derive(Clone, Copy, Debug, PartialEq, Eq, Structural)]
pub struct SocketReport {
    pub state: TcpState,
    pub client: Option<InternalEndpoint>,
    pub server: Option<InternalEndpoint>,
}

/// A listening socket, and whether it still waits for a client.
#[derive(Clone, Copy, Debug, PartialEq, Eq, Structural)]
pub struct Listener {
    pub id: u64,
    pub port: u16,
    pub waiting: bool,
}

/// A connection that ended: closed by both sides, or reset by the peer.
#[derive(Clone, Copy, Debug, PartialEq, Eq, Structural)]
pub struct Ended {
    pub id: StreamId,
    pub reset: bool,
}

/// How a connection that carries no more bytes ended. One that is closed
/// without a word of ours was reset.
pub open spec fn ending(state: TcpState) -> StreamError {
    if state == TcpState::Closed {
        StreamError::Reset
    } else {
        StreamError::Closed
    }
}

/// Whether a connection is still being opened.
pub open spec fn opening(state: TcpState) -> bool {
    state == TcpState::Listen || state == TcpState::SynSent || state == TcpState::SynReceived
}

pub fn ended(state: TcpState) -> (r: StreamError)
    ensures
        r == ending(state),
{
    if state == TcpState::Closed {
        StreamError::Reset
    } else {
        StreamError::Closed
    }
}

pub fn handshaking(state: TcpState) -> (r: bool)
    ensures
        r == opening(state),
{
    state == TcpState::Listen || state == TcpState::SynSent || state == TcpState::SynReceived
}

/// The port that a packet asks to open a connection to: a TCP segment with SYN
/// and without ACK, right behind the IP header.
pub open spec fn syn_port(packet: Seq<u8>) -> Option<u16> {
    if packet.len() == 0 {
        None
    } else {
        let version = packet[0] / 16;
        let at = if version == 4 && packet.len() > 9 && packet[9] == 6 {
            Some((packet[0] % 16) * 4)
        } else if version == 6 && packet.len() > 6 && packet[6] == 6 {
            Some(40)
        } else {
            None
        };
        match at {
            None => None,
            Some(at) => if packet.len() >= at + 14 && packet[at + 13] / 2 % 2 == 1 && packet[at + 13]
                / 16 % 2 == 0 {
                Some(reader::two(packet.skip(at + 2)))
            } else {
                None
            },
        }
    }
}

pub fn syn_destination(packet: &[u8]) -> (r: Option<u16>)
    ensures
        r == syn_port(packet@),
{
    let n: usize = packet.len();
    if n == 0 {
        return None;
    }
    let version: u8 = packet[0] / 16;
    let at: usize = if version == 4 && n > 9 && packet[9] == 6 {
        (packet[0] % 16) as usize * 4
    } else if version == 6 && n > 6 && packet[6] == 6 {
        40
    } else {
        return None;
    };
    if n < at + 14 {
        return None;
    }
    let flags: u8 = packet[at + 13];
    if flags / 2 % 2 == 1 && flags / 16 % 2 == 0 {
        Some(packet[at + 2] as u16 * 256 + packet[at + 3] as u16)
    } else {
        None
    }
}

/// How often a port stands in a list.
pub open spec fn count(list: Seq<u16>, port: u16) -> nat
    decreases list.len(),
{
    if list.len() == 0 {
        0
    } else {
        count(list.drop_last(), port) + (if list.last() == port {
            1nat
        } else {
            0
        })
    }
}

fn count_ports(list: &Vec<u16>, port: u16) -> (n: usize)
    ensures
        n == count(list@, port),
        n <= list@.len(),
{
    let mut n: usize = 0;
    let len: usize = list.len();
    let mut i: usize = 0;
    while i < len
        invariant
            i <= len,
            len == list@.len(),
            n <= i,
            n == count(list@.take(i as int), port),
        decreases len - i,
    {
        assert(list@.take(i + 1).drop_last() =~= list@.take(i as int));
        if list[i] == port {
            n += 1;
        }
        i += 1;
    }
    assert(list@.take(len as int) =~= list@);
    n
}

/// How many listeners on a port still wait.
pub open spec fn waiting(listeners: Seq<Listener>, port: u16) -> nat
    decreases listeners.len(),
{
    if listeners.len() == 0 {
        0
    } else {
        waiting(listeners.drop_last(), port) + (if listeners.last().port == port
            && listeners.last().waiting {
            1nat
        } else {
            0
        })
    }
}

/// The same port so many times.
pub open spec fn copies(port: u16, n: int) -> Seq<u16> {
    Seq::new(
        if n > 0 {
            n as nat
        } else {
            0
        },
        |i: int| port,
    )
}

/// The listeners that the ports lack, in order, up to `budget` of them.
pub open spec fn lacking(
    ports: Seq<u16>,
    listeners: Seq<Listener>,
    backlog: int,
    budget: int,
) -> Seq<u16>
    decreases ports.len(),
{
    if ports.len() == 0 {
        seq![]
    } else {
        let before = lacking(ports.drop_last(), listeners, backlog, budget);
        let port = ports.last();
        let need = backlog - waiting(listeners, port) - count(before, port);
        let room = budget - before.len();
        before + copies(
            port,
            if need < room {
                need
            } else {
                room
            },
        )
    }
}

/// The listeners that stay listeners: those whose handshake is not done.
pub open spec fn kept(listeners: Seq<Listener>, reports: Seq<SocketReport>) -> Seq<Listener>
    decreases listeners.len(),
{
    if listeners.len() == 0 {
        seq![]
    } else {
        let before = kept(listeners.drop_last(), reports);
        let state = reports[listeners.len() - 1].state;
        if state == TcpState::Listen || state == TcpState::SynReceived {
            before.push(Listener { waiting: state == TcpState::Listen, ..listeners.last() })
        } else {
            before
        }
    }
}

/// Whether a listener has become a connection.
pub open spec fn opened(report: SocketReport) -> bool {
    report.state != TcpState::Listen && report.state != TcpState::SynReceived && report.client
        is Some && report.server is Some
}

/// The listeners that became connections, and whether each has ended already.
pub open spec fn accepted(listeners: Seq<Listener>, reports: Seq<SocketReport>) -> Seq<
    (Terminated, bool),
>
    decreases listeners.len(),
{
    if listeners.len() == 0 {
        seq![]
    } else {
        let before = accepted(listeners.drop_last(), reports);
        let report = reports[listeners.len() - 1];
        if opened(report) {
            before.push(
                (
                    Terminated {
                        id: StreamId(listeners.last().id),
                        client: report.client->0,
                        server: report.server->0,
                    },
                    report.state == TcpState::Closed,
                ),
            )
        } else {
            before
        }
    }
}

/// The listeners that closed before they became connections.
pub open spec fn refused(listeners: Seq<Listener>, reports: Seq<SocketReport>) -> Seq<u64>
    decreases listeners.len(),
{
    if listeners.len() == 0 {
        seq![]
    } else {
        let before = refused(listeners.drop_last(), reports);
        let report = reports[listeners.len() - 1];
        if report.state == TcpState::Listen || report.state == TcpState::SynReceived || opened(
            report,
        ) {
            before
        } else {
            before.push(listeners.last().id)
        }
    }
}

/// The connections, each with whether it ended.
pub open spec fn flagged(live: Seq<Terminated>, over: Seq<bool>) -> Seq<(Terminated, bool)> {
    Seq::new(live.len(), |i: int| (live[i], over[i]))
}

/// The connections that go on.
pub open spec fn going(list: Seq<(Terminated, bool)>) -> Seq<Terminated>
    decreases list.len(),
{
    if list.len() == 0 {
        seq![]
    } else if list.last().1 {
        going(list.drop_last())
    } else {
        going(list.drop_last()).push(list.last().0)
    }
}

/// The connections that ended. One that was not being closed here was reset.
pub open spec fn finished(list: Seq<(Terminated, bool)>, closing: Seq<u64>) -> Seq<Ended>
    decreases list.len(),
{
    if list.len() == 0 {
        seq![]
    } else if list.last().1 {
        finished(list.drop_last(), closing).push(
            Ended { id: list.last().0.id, reset: !closing.contains(list.last().0.id.0) },
        )
    } else {
        finished(list.drop_last(), closing)
    }
}

/// The ids of ended connections.
pub open spec fn ids(list: Seq<Ended>) -> Seq<u64> {
    Seq::new(list.len(), |i: int| list[i].id.0)
}

/// The connections of a list.
pub open spec fn firsts(list: Seq<(Terminated, bool)>) -> Seq<Terminated> {
    Seq::new(list.len(), |i: int| list[i].0)
}

/// The book on a terminator's sockets.
pub struct LocalStack {
    pub ports: Vec<u16>,
    /// Every port is terminated: a SYN to one without a listener gets one.
    pub every_port: bool,
    /// The ports of SYNs since the last harvest, outside `ports`.
    pub wanted: Vec<u16>,
    pub listeners: Vec<Listener>,
    pub limits: TerminationLimits,
    pub established: Vec<Terminated>,
    /// Connections that were closed or aborted here.
    pub closing: Vec<u64>,
    /// Accepted and not handed out yet, oldest first.
    pub accepted: Vec<Terminated>,
    /// Ended and not handed out yet, oldest first.
    pub closed: Vec<Ended>,
}

impl LocalStack {
    /// The sockets are within their ceiling.
    pub open spec fn wf(&self) -> bool {
        self.listeners@.len() + self.established@.len() <= self.limits.max_sockets
    }

    /// A book with no sockets yet. Each port must be able to have its whole
    /// backlog, or the last ports would never be listened on.
    pub fn new(ports: &[u16], limits: TerminationLimits) -> (r: Result<Self, TerminationError>)
        ensures
            r is Ok == (ports@.len() * limits.backlog <= limits.max_sockets),
            r matches Err(e) ==> e == (TerminationError::SocketsBelowBacklog {
                ports: ports@.len() as usize,
                backlog: limits.backlog,
                ceiling: limits.max_sockets,
            }),
            r matches Ok(s) ==> s.wf() && s.ports@ == ports@ && !s.every_port && s.limits == limits
                && s.wanted@.len() == 0 && s.listeners@.len() == 0 && s.established@.len() == 0
                && s.closing@.len() == 0 && s.accepted@.len() == 0 && s.closed@.len() == 0,
    {
        let n: usize = ports.len();
        proof {
            assert(n as u128 * limits.backlog as u128 <= u128::MAX) by (nonlinear_arith)
                requires
                    n <= u64::MAX,
                    limits.backlog <= u64::MAX,
            ;
        }
        let needed: u128 = n as u128 * limits.backlog as u128;
        if needed > limits.max_sockets as u128 {
            return Err(
                TerminationError::SocketsBelowBacklog {
                    ports: n,
                    backlog: limits.backlog,
                    ceiling: limits.max_sockets,
                },
            );
        }
        let mut own: Vec<u16> = Vec::new();
        own.extend_from_slice(ports);
        assert(own@ =~= ports@);
        Ok(
            LocalStack {
                ports: own,
                every_port: false,
                wanted: Vec::new(),
                listeners: Vec::new(),
                limits,
                established: Vec::new(),
                closing: Vec::new(),
                accepted: Vec::new(),
                closed: Vec::new(),
            },
        )
    }

    /// Terminates every port, not only those it was made for.
    pub fn terminate_every_port(&mut self)
        ensures
            *final(self) == (LocalStack { every_port: true, ..*old(self) }),
    {
        self.every_port = true;
    }

    pub fn socket_count(&self) -> (n: usize)
        requires
            self.wf(),
        ensures
            n == self.listeners@.len() + self.established@.len(),
    {
        self.listeners.len() + self.established.len()
    }

    /// How many listeners on `port` still wait.
    pub fn listening(&self, port: u16) -> (n: usize)
        ensures
            n == waiting(self.listeners@, port),
            n <= self.listeners@.len(),
    {
        let mut n: usize = 0;
        let len: usize = self.listeners.len();
        let mut i: usize = 0;
        while i < len
            invariant
                i <= len,
                len == self.listeners@.len(),
                n <= i,
                n == waiting(self.listeners@.take(i as int), port),
            decreases len - i,
        {
            assert(self.listeners@.take(i + 1).drop_last() =~= self.listeners@.take(i as int));
            if self.listeners[i].port == port && self.listeners[i].waiting {
                n += 1;
            }
            i += 1;
        }
        assert(self.listeners@.take(len as int) =~= self.listeners@);
        n
    }

    fn has_port(&self, port: u16) -> (r: bool)
        ensures
            r == self.ports@.contains(port),
    {
        let n: usize = self.ports.len();
        let mut i: usize = 0;
        while i < n
            invariant
                i <= n,
                n == self.ports@.len(),
                forall|j: int| 0 <= j < i ==> self.ports@[j] != port,
            decreases n - i,
        {
            if self.ports[i] == port {
                assert(self.ports@[i as int] == port);
                return true;
            }
            i += 1;
        }
        false
    }

    /// Notes an arriving packet, and says which port needs another listener for
    /// it, if one does and the budget has room.
    pub fn arrived(&mut self, packet: &[u8]) -> (r: Option<u16>)
        requires
            old(self).wf(),
        ensures
            ({
                let asks = match syn_port(packet@) {
                    Some(port) if old(self).every_port && !old(self).ports@.contains(port) => Some(
                        port,
                    ),
                    _ => None::<u16>,
                };
                match asks {
                    None => r is None && *final(self) == *old(self),
                    Some(port) => final(self).wanted@ == old(self).wanted@.push(port) && *final(self)
                        == (LocalStack { wanted: final(self).wanted, ..*old(self) }) && r == (
                    if waiting(old(self).listeners@, port) < count(
                        old(self).wanted@.push(port),
                        port,
                    ) && old(self).listeners@.len() + old(self).established@.len() < old(self).limits.max_sockets {
                        Some(port)
                    } else {
                        None::<u16>
                    }),
                }
            }),
    {
        if !self.every_port {
            return None;
        }
        let port: u16 = match syn_destination(packet) {
            Some(port) => port,
            None => {
                return None;
            },
        };
        if self.has_port(port) {
            return None;
        }
        self.wanted.push(port);
        if self.listening(port) < count_ports(&self.wanted, port) && self.socket_count()
            < self.limits.max_sockets {
            Some(port)
        } else {
            None
        }
    }

    /// The ports to open listeners on, in order, so that each has its backlog
    /// as far as the budget goes.
    pub fn replenish(&self) -> (r: Vec<u16>)
        requires
            self.wf(),
        ensures
            r@ == lacking(
                self.ports@,
                self.listeners@,
                self.limits.backlog as int,
                self.limits.max_sockets - self.listeners@.len() - self.established@.len(),
            ),
            self.listeners@.len() + self.established@.len() + r@.len() <= self.limits.max_sockets,
    {
        let budget: usize = self.limits.max_sockets - self.socket_count();
        let mut r: Vec<u16> = Vec::new();
        let n: usize = self.ports.len();
        let mut i: usize = 0;
        assert(self.ports@.take(0) =~= seq![]);
        assert(r@ =~= seq![]);
        while i < n
            invariant
                i <= n,
                n == self.ports@.len(),
                budget == self.limits.max_sockets - self.listeners@.len()
                    - self.established@.len(),
                r@.len() <= budget,
                r@ == lacking(
                    self.ports@.take(i as int),
                    self.listeners@,
                    self.limits.backlog as int,
                    budget as int,
                ),
            decreases n - i,
        {
            let port: u16 = self.ports[i];
            let held: usize = self.listening(port);
            let planned: usize = count_ports(&r, port);
            let ghost before = r@;
            let ghost need = self.limits.backlog - waiting(self.listeners@, port) - count(
                before,
                port,
            );
            let mut more: usize = 0;
            assert(before + copies(port, 0) =~= before);
            while r.len() < budget && more < self.limits.backlog && self.limits.backlog - more
                > held && self.limits.backlog - more - held > planned
                invariant
                    before.len() + more == r@.len(),
                    r@.len() <= budget,
                    held == waiting(self.listeners@, port),
                    planned == count(before, port),
                    need == self.limits.backlog - held - planned,
                    more <= self.limits.backlog,
                    more > 0 ==> more <= need,
                    r@ == before + copies(port, more as int),
                decreases budget - r@.len(),
            {
                r.push(port);
                more += 1;
                assert(r@ =~= before + copies(port, more as int));
            }
            proof {
                let room = budget - before.len();
                let want = if need < room {
                    need
                } else {
                    room as int
                };
                assert(copies(port, more as int) =~= copies(port, want));
                assert(self.ports@.take(i + 1).drop_last() =~= self.ports@.take(i as int));
            }
            i += 1;
        }
        assert(self.ports@.take(n as int) =~= self.ports@);
        r
    }

    /// Notes a listener that was opened.
    pub fn listener_added(&mut self, id: u64, port: u16)
        requires
            old(self).wf(),
            old(self).listeners@.len() + old(self).established@.len() < old(self).limits.max_sockets,
        ensures
            final(self).wf(),
            final(self).listeners@ == old(self).listeners@.push(
                Listener { id, port, waiting: true },
            ),
            *final(self) == (LocalStack { listeners: final(self).listeners, ..*old(self) }),
    {
        self.listeners.push(Listener { id, port, waiting: true });
    }

    /// Takes what the sockets say after they were driven: listeners whose
    /// handshake is done become connections, and connections that closed end.
    /// Returns the sockets that are given up.
    pub fn harvest(&mut self, reports: &Vec<SocketReport>, over: &Vec<bool>) -> (r: Vec<u64>)
        requires
            old(self).wf(),
            reports@.len() == old(self).listeners@.len(),
            over@.len() == old(self).established@.len(),
        ensures
            final(self).wf(),
            ({
                let news = accepted(old(self).listeners@, reports@);
                let all = flagged(old(self).established@, over@) + news;
                let ends = finished(all, old(self).closing@);
                &&& final(self).listeners@ == kept(old(self).listeners@, reports@)
                &&& final(self).established@ == going(all)
                &&& final(self).accepted@ == old(self).accepted@ + firsts(news)
                &&& final(self).closed@ == old(self).closed@ + ends
                &&& final(self).wanted@.len() == 0
                &&& r@ == refused(old(self).listeners@, reports@) + ids(ends)
                &&& forall|id: u64|
                    #[trigger] final(self).closing@.contains(id) <==> old(self).closing@.contains(id) && !ids(ends).contains(id)
                &&& final(self).ports == old(self).ports
                &&& final(self).every_port == old(self).every_port
                &&& final(self).limits == old(self).limits
            }),
    {
        let ghost ls = self.listeners@;
        let ghost rs = reports@;
        let mut stay: Vec<Listener> = Vec::new();
        let mut news: Vec<(Terminated, bool)> = Vec::new();
        let mut gone: Vec<u64> = Vec::new();
        let n: usize = self.listeners.len();
        let mut i: usize = 0;
        proof {
            assert(ls.take(0) =~= seq![]);
            assert(stay@ =~= seq![]);
            assert(news@ =~= seq![]);
            assert(gone@ =~= seq![]);
        }
        while i < n
            invariant
                i <= n,
                n == ls.len(),
                n == rs.len(),
                rs == reports@,
                *self == *old(self),
                ls == self.listeners@,
                stay@ == kept(ls.take(i as int), rs),
                news@ == accepted(ls.take(i as int), rs),
                gone@ == refused(ls.take(i as int), rs),
                stay@.len() + news@.len() <= i,
            decreases n - i,
        {
            let one: Listener = self.listeners[i];
            let report: SocketReport = reports[i];
            proof {
                assert(ls.take(i + 1).drop_last() =~= ls.take(i as int));
                assert(ls.take(i + 1).last() == one);
            }
            if report.state == TcpState::Listen || report.state == TcpState::SynReceived {
                stay.push(
                    Listener {
                        id: one.id,
                        port: one.port,
                        waiting: report.state == TcpState::Listen,
                    },
                );
            } else {
                match (report.client, report.server) {
                    (Some(client), Some(server)) => {
                        news.push(
                            (
                                Terminated { id: StreamId(one.id), client, server },
                                report.state == TcpState::Closed,
                            ),
                        );
                    },
                    _ => {
                        gone.push(one.id);
                    },
                }
            }
            i += 1;
        }
        assert(ls.take(n as int) =~= ls);
        let ghost live = flagged(self.established@, over@);
        let ghost all = live + news@;
        let old_len: usize = self.established.len();
        let new_len: usize = news.len();
        let mut on: Vec<Terminated> = Vec::new();
        let mut ends: Vec<Ended> = Vec::new();
        let mut k: usize = 0;
        proof {
            assert(all.take(0) =~= seq![]);
            assert(on@ =~= seq![]);
            assert(ends@ =~= seq![]);
        }
        while k < old_len
            invariant
                k <= old_len,
                old_len == old(self).established@.len(),
                over@.len() == old_len,
                *self == *old(self),
                live == flagged(old(self).established@, over@),
                all == live + news@,
                on@ == going(all.take(k as int)),
                ends@ == finished(all.take(k as int), old(self).closing@),
                on@.len() <= k,
            decreases old_len - k,
        {
            let one: Terminated = self.established[k];
            proof {
                assert(all.take(k + 1).drop_last() =~= all.take(k as int));
                assert(all.take(k + 1).last() == (one, over@[k as int]));
            }
            if over[k] {
                ends.push(Ended { id: one.id, reset: !has_id(&self.closing, one.id.0) });
            } else {
                on.push(one);
            }
            k += 1;
        }
        let mut m: usize = 0;
        while m < new_len
            invariant
                m <= new_len,
                new_len == news@.len(),
                old_len == old(self).established@.len(),
                over@.len() == old_len,
                live == flagged(old(self).established@, over@),
                all == live + news@,
                news@ == accepted(ls, rs),
                self.listeners == old(self).listeners,
                self.established == old(self).established,
                self.closing == old(self).closing,
                self.closed == old(self).closed,
                self.ports == old(self).ports,
                self.every_port == old(self).every_port,
                self.limits == old(self).limits,
                self.accepted@ == old(self).accepted@ + firsts(news@).take(m as int),
                on@ == going(all.take(old_len + m)),
                ends@ == finished(all.take(old_len + m), old(self).closing@),
                on@.len() <= old_len + m,
            decreases new_len - m,
        {
            let (one, is_over): (Terminated, bool) = news[m];
            proof {
                assert(all.take(old_len + m + 1).drop_last() =~= all.take(old_len + m));
                assert(all.take(old_len + m + 1).last() == (one, is_over));
            }
            self.accepted.push(one);
            proof {
                assert(self.accepted@ =~= old(self).accepted@ + firsts(news@).take(m + 1));
            }
            if is_over {
                ends.push(Ended { id: one.id, reset: !has_id(&self.closing, one.id.0) });
            } else {
                on.push(one);
            }
            m += 1;
        }
        proof {
            assert(all.take(old_len + new_len) =~= all);
            assert(firsts(news@).take(new_len as int) =~= firsts(news@));
        }
        let mut e: usize = 0;
        let ghost refusals = gone@;
        let ended_now: usize = ends.len();
        assert(gone@ =~= refusals + ids(ends@).take(0));
        while e < ended_now
            invariant
                e <= ended_now,
                ended_now == ends@.len(),
                gone@ == refusals + ids(ends@).take(e as int),
            decreases ended_now - e,
        {
            gone.push(ends[e].id.0);
            assert(gone@ =~= refusals + ids(ends@).take(e + 1));
            e += 1;
        }
        assert(ids(ends@).take(ended_now as int) =~= ids(ends@));
        let ghost ending_ids = ids(ends@);
        self.closing = drop_ids(&self.closing, &ends);
        self.listeners = stay;
        self.established = on;
        self.wanted = Vec::new();
        let ghost ends_now = ends@;
        let ghost closed_before = self.closed@;
        self.closed.append(&mut ends);
        assert(self.closed@ =~= closed_before + ends_now);
        gone
    }

    /// The next accepted connection.
    pub fn poll_accept(&mut self) -> (r: Option<Terminated>)
        ensures
            match r {
                Some(t) => old(self).accepted@.len() > 0 && t == old(self).accepted@[0] && final(self).accepted@ == old(self).accepted@.skip(1),
                None => old(self).accepted@.len() == 0 && final(self).accepted@ == old(self).accepted@,
            },
            *final(self) == (LocalStack { accepted: final(self).accepted, ..*old(self) }),
    {
        if self.accepted.len() == 0 {
            return None;
        }
        let t: Terminated = self.accepted.remove(0);
        assert(self.accepted@ =~= old(self).accepted@.skip(1));
        Some(t)
    }

    /// The next ended connection.
    pub fn poll_closed(&mut self) -> (r: Option<Ended>)
        ensures
            match r {
                Some(e) => old(self).closed@.len() > 0 && e == old(self).closed@[0] && final(self).closed@ == old(self).closed@.skip(1),
                None => old(self).closed@.len() == 0 && final(self).closed@ == old(self).closed@,
            },
            *final(self) == (LocalStack { closed: final(self).closed, ..*old(self) }),
    {
        if self.closed.len() == 0 {
            return None;
        }
        let e: Ended = self.closed.remove(0);
        assert(self.closed@ =~= old(self).closed@.skip(1));
        Some(e)
    }

    /// Whether the id names a live connection.
    pub open spec fn live(&self, id: StreamId) -> bool {
        exists|i: int| 0 <= i < self.established@.len() && (#[trigger] self.established@[i]).id == id
    }

    pub fn is_live(&self, id: StreamId) -> (r: bool)
        ensures
            r == self.live(id),
    {
        let n: usize = self.established.len();
        let mut i: usize = 0;
        while i < n
            invariant
                i <= n,
                n == self.established@.len(),
                forall|j: int| 0 <= j < i ==> (#[trigger] self.established@[j]).id != id,
            decreases n - i,
        {
            if self.established[i].id.0 == id.0 {
                assert(self.established@[i as int].id == id);
                return true;
            }
            i += 1;
        }
        false
    }

    /// Notes that a connection is closed or aborted here; `false` where the id
    /// is not live.
    pub fn close(&mut self, id: StreamId) -> (r: bool)
        ensures
            r == old(self).live(id),
            final(self).closing@ == (if r {
                old(self).closing@.push(id.0)
            } else {
                old(self).closing@
            }),
            *final(self) == (LocalStack { closing: final(self).closing, ..*old(self) }),
    {
        if self.is_live(id) {
            self.closing.push(id.0);
            true
        } else {
            false
        }
    }

    /// Whether bytes can be read now, given what the socket says.
    pub fn recv_gate(&self, id: StreamId, can: bool, may: bool, state: TcpState) -> (r: Result<
        (),
        StreamError,
    >)
        ensures
            r == (if !self.live(id) {
                Err::<(), StreamError>(StreamError::Unknown)
            } else if can {
                Ok(())
            } else if may || opening(state) {
                Err(StreamError::WouldBlock)
            } else {
                Err(ending(state))
            }),
    {
        if !self.is_live(id) {
            return Err(StreamError::Unknown);
        }
        if can {
            return Ok(());
        }
        if may || handshaking(state) {
            Err(StreamError::WouldBlock)
        } else {
            Err(ended(state))
        }
    }

    /// Whether bytes can be written at all, given what the socket says.
    pub fn send_gate(&self, id: StreamId, may: bool, state: TcpState) -> (r: Result<
        (),
        StreamError,
    >)
        ensures
            r == (if !self.live(id) {
                Err::<(), StreamError>(StreamError::Unknown)
            } else if may {
                Ok(())
            } else if opening(state) {
                Err(StreamError::WouldBlock)
            } else {
                Err(ending(state))
            }),
    {
        if !self.is_live(id) {
            return Err(StreamError::Unknown);
        }
        if may {
            return Ok(());
        }
        if handshaking(state) {
            Err(StreamError::WouldBlock)
        } else {
            Err(ended(state))
        }
    }
}

fn has_id(list: &Vec<u64>, id: u64) -> (r: bool)
    ensures
        r == list@.contains(id),
{
    let n: usize = list.len();
    let mut i: usize = 0;
    while i < n
        invariant
            i <= n,
            n == list@.len(),
            forall|j: int| 0 <= j < i ==> list@[j] != id,
        decreases n - i,
    {
        if list[i] == id {
            assert(list@[i as int] == id);
            return true;
        }
        i += 1;
    }
    false
}

fn has_ended(list: &Vec<Ended>, id: u64) -> (r: bool)
    ensures
        r == ids(list@).contains(id),
{
    let n: usize = list.len();
    let mut i: usize = 0;
    while i < n
        invariant
            i <= n,
            n == list@.len(),
            forall|j: int| 0 <= j < i ==> #[trigger] ids(list@)[j] != id,
        decreases n - i,
    {
        if list[i].id.0 == id {
            assert(ids(list@)[i as int] == id);
            return true;
        }
        i += 1;
    }
    false
}

fn drop_ids(list: &Vec<u64>, ends: &Vec<Ended>) -> (r: Vec<u64>)
    ensures
        forall|id: u64|
            #[trigger] r@.contains(id) <==> list@.contains(id) && !ids(ends@).contains(id),
{
    let mut r: Vec<u64> = Vec::new();
    let n: usize = list.len();
    let mut i: usize = 0;
    assert(forall|id: u64| !r@.contains(id));
    while i < n
        invariant
            i <= n,
            n == list@.len(),
            forall|id: u64|
                #[trigger] r@.contains(id) <==> list@.take(i as int).contains(id) && !ids(
                    ends@,
                ).contains(id),
        decreases n - i,
    {
        let one: u64 = list[i];
        let ghost before = r@;
        let keep: bool = !has_ended(ends, one);
        if keep {
            r.push(one);
        }
        let ghost longer = list@.take(i + 1);
        proof {
            assert forall|id: u64| #[trigger] r@.contains(id) <==> list@.take(i + 1).contains(id)
                && !ids(ends@).contains(id) by {
                if before.contains(id) {
                    let k = choose|k: int| 0 <= k < before.len() && before[k] == id;
                    assert(r@[k] == id);
                }
                if list@.take(i as int).contains(id) {
                    let k = choose|k: int|
                        0 <= k < i && list@.take(i as int)[k] == id;
                    assert(list@.take(i + 1)[k] == id);
                }
                if list@.take(i + 1).contains(id) {
                    let k = choose|k: int| 0 <= k < longer.len() && longer[k] == id;
                    if k < i {
                        assert(list@.take(i as int)[k] == id);
                    }
                }
                assert(list@.take(i + 1)[i as int] == one);
                if keep {
                    assert(r@[before.len() as int] == one);
                }
                if r@.contains(id) {
                    let k = choose|k: int| 0 <= k < r@.len() && r@[k] == id;
                    if k < before.len() {
                        assert(before[k] == id);
                    }
                }
            }
        }
        i += 1;
    }
    assert(list@.take(n as int) =~= list@);
    r
}

/// How much a buffer of the pool carries of a packet size.
pub fn carried(mtu: u16, slice: usize) -> (r: usize)
    ensures
        r == (if mtu < slice {
            mtu as usize
        } else {
            slice
        }),
{
    if (mtu as usize) < slice {
        mtu as usize
    } else {
        slice
    }
}

/// Milliseconds since the terminator was made; none for a time before it.
pub fn elapsed_millis(base: Instant, now: Instant) -> (r: i64)
    ensures
        r == (if now.nanos < base.nanos {
            0
        } else if (now.nanos - base.nanos) / 1_000_000 <= i64::MAX {
            (now.nanos - base.nanos) / 1_000_000
        } else {
            i64::MAX as int
        }),
{
    if now.nanos < base.nanos {
        return 0;
    }
    let millis: u128 = (now.nanos - base.nanos) / 1_000_000;
    if millis <= i64::MAX as u128 {
        millis as i64
    } else {
        i64::MAX
    }
}

/// Microseconds until work is due; none for work that is overdue.
pub fn ahead_micros(at: i64, now: i64) -> (r: u64)
    ensures
        r == (if at > now {
            at - now
        } else {
            0
        }),
{
    if at > now {
        (at as i128 - now as i128) as u64
    } else {
        0
    }
}

/// No handshake is taken for a connection: what is accepted has both endpoints
/// and is past the handshake.
pub proof fn only_finished_handshakes_are_accepted(
    listeners: Seq<Listener>,
    reports: Seq<SocketReport>,
)
    requires
        reports.len() >= listeners.len(),
    ensures
        forall|i: int|
            0 <= i < accepted(listeners, reports).len() ==> exists|k: int|
                0 <= k < listeners.len() && opened(#[trigger] reports[k]) && (
                #[trigger] accepted(listeners, reports)[i]).0.id == StreamId(listeners[k].id),
    decreases listeners.len(),
{
    if listeners.len() > 0 {
        let rest = listeners.drop_last();
        only_finished_handshakes_are_accepted(rest, reports);
        let all = accepted(listeners, reports);
        let before = accepted(rest, reports);
        assert forall|i: int| 0 <= i < all.len() implies exists|k: int|
            0 <= k < listeners.len() && opened(#[trigger] reports[k]) && (#[trigger] all[i]).0.id
                == StreamId(listeners[k].id) by {
            if i < before.len() {
                assert(all[i] == before[i]);
                let k = choose|k: int|
                    0 <= k < rest.len() && opened(#[trigger] reports[k]) && before[i].0.id
                        == StreamId(rest[k].id);
                assert(rest[k] == listeners[k]);
                assert(opened(reports[k]));
            } else {
                assert(opened(reports[listeners.len() - 1]));
            }
        }
    }
}

/// A packet asks for a connection by its flags: SYN set and ACK clear, in a TCP segment
/// right behind its IP header; the port is the one it is addressed to.
pub proof fn a_connection_is_asked_for_by_a_bare_syn(packet: &[u8], r: Option<u16>)
    requires
        call_ensures(syn_destination, (packet,), r),
    ensures
        packet@.len() >= 34 && packet@[0] == 0x45 && packet@[9] == 6 ==> {
            &&& r is Some <==> packet@[33] % 4 >= 2 && packet@[33] % 32 < 16
            &&& r is Some ==> r->0 == packet@[22] * 256 + packet@[23]
        },
        packet@.len() >= 54 && packet@[0] / 16 == 6 && packet@[6] == 6 ==> {
            &&& r is Some <==> packet@[53] % 4 >= 2 && packet@[53] % 32 < 16
            &&& r is Some ==> r->0 == packet@[42] * 256 + packet@[43]
        },
        packet@.len() >= 20 && packet@[0] / 16 == 4 && packet@[9] != 6 ==> r is None,
        packet@.len() >= 40 && packet@[0] / 16 == 6 && packet@[6] != 6 ==> r is None,
        packet@.len() < 14 ==> r is None,
{
}

/// How a connection that carries no more bytes is told to have ended: reset where it
/// closed without a word of ours, closed in every other state. While it is being opened
/// it has not ended.
pub proof fn a_connection_ends_in_one_of_two_ways(state: TcpState, end: StreamError, opens: bool)
    requires
        call_ensures(ended, (state,), end),
        call_ensures(handshaking, (state,), opens),
    ensures
        end == StreamError::Reset <==> state == TcpState::Closed,
        end == StreamError::Closed <==> state != TcpState::Closed,
        opens <==> state == TcpState::Listen || state == TcpState::SynSent || state == TcpState::SynReceived,
{
}

/// Reading and writing ask the same of a connection: one that is not live is unknown, one
/// that can go on goes on, one that may yet waits, and any other says how it ended.
pub proof fn a_gate_says_go_wait_or_how_it_ended(
    s: &LocalStack,
    id: StreamId,
    can: bool,
    may: bool,
    state: TcpState,
    read: Result<(), StreamError>,
    write: Result<(), StreamError>,
)
    requires
        call_ensures(LocalStack::recv_gate, (s, id, can, may, state), read),
        call_ensures(LocalStack::send_gate, (s, id, may, state), write),
    ensures
        !s.live(id) ==> read == Err::<(), StreamError>(StreamError::Unknown) && write == Err::<(), StreamError>(
            StreamError::Unknown,
        ),
        s.live(id) ==> (read is Ok <==> can) && (write is Ok <==> may),
        s.live(id) && !can && may ==> read == Err::<(), StreamError>(StreamError::WouldBlock),
        s.live(id) && !may && (state == TcpState::SynReceived || state == TcpState::SynSent || state
            == TcpState::Listen) ==> write == Err::<(), StreamError>(StreamError::WouldBlock),
        s.live(id) && !can && !may && state == TcpState::Closed ==> read == Err::<(), StreamError>(StreamError::Reset)
            && write == Err::<(), StreamError>(StreamError::Reset),
        s.live(id) && !can && !may && (state == TcpState::CloseWait || state == TcpState::FinWait2 || state
            == TcpState::TimeWait || state == TcpState::LastAck) ==> read == Err::<(), StreamError>(
            StreamError::Closed,
        ) && write == Err::<(), StreamError>(StreamError::Closed),
{
}

/// Each listener comes to exactly one thing: it stays, it is accepted or it is given up.
pub proof fn every_listener_comes_to_one_thing(listeners: Seq<Listener>, reports: Seq<SocketReport>)
    requires
        reports.len() >= listeners.len(),
    ensures
        kept(listeners, reports).len() + accepted(listeners, reports).len() + refused(listeners, reports).len()
            == listeners.len(),
        forall|k: int|
            0 <= k < listeners.len() && (reports[k].state == TcpState::Listen || reports[k].state
                == TcpState::SynReceived) ==> kept(listeners, reports).contains(
                Listener {
                    id: (#[trigger] listeners[k]).id,
                    port: listeners[k].port,
                    waiting: reports[k].state == TcpState::Listen,
                },
            ),
        forall|k: int|
            0 <= k < listeners.len() && reports[k].state != TcpState::Listen && reports[k].state
                != TcpState::SynReceived && reports[k].client is Some && reports[k].server is Some ==> accepted(
                listeners,
                reports,
            ).contains(
                (
                    Terminated {
                        id: StreamId((#[trigger] listeners[k]).id),
                        client: reports[k].client->0,
                        server: reports[k].server->0,
                    },
                    reports[k].state == TcpState::Closed,
                ),
            ),
        forall|k: int|
            0 <= k < listeners.len() && reports[k].state != TcpState::Listen && reports[k].state
                != TcpState::SynReceived && !(reports[k].client is Some && reports[k].server is Some) ==> refused(
                listeners,
                reports,
            ).contains((#[trigger] listeners[k]).id),
    decreases listeners.len(),
{
    if listeners.len() > 0 {
        let rest = listeners.drop_last();
        every_listener_comes_to_one_thing(rest, reports);
        let n: int = listeners.len() - 1;
        let a = kept(rest, reports);
        let b = accepted(rest, reports);
        let c = refused(rest, reports);
        let x = kept(listeners, reports);
        let y = accepted(listeners, reports);
        let z = refused(listeners, reports);
        assert forall|l: Listener| a.contains(l) implies x.contains(l) by {
            let i = choose|i: int| 0 <= i < a.len() && a[i] == l;
            assert(x[i] == l);
        }
        assert forall|t: (Terminated, bool)| b.contains(t) implies y.contains(t) by {
            let i = choose|i: int| 0 <= i < b.len() && b[i] == t;
            assert(y[i] == t);
        }
        assert forall|id: u64| c.contains(id) implies z.contains(id) by {
            let i = choose|i: int| 0 <= i < c.len() && c[i] == id;
            assert(z[i] == id);
        }
        assert forall|k: int| 0 <= k < rest.len() implies rest[k] == #[trigger] listeners[k] by {}
        if x.len() > a.len() {
            assert(x[a.len() as int] == x.last());
        }
        if y.len() > b.len() {
            assert(y[b.len() as int] == y.last());
        }
        if z.len() > c.len() {
            assert(z[c.len() as int] == z.last());
        }
        assert forall|k: int|
            0 <= k < listeners.len() && (reports[k].state == TcpState::Listen || reports[k].state
                == TcpState::SynReceived) implies x.contains(
            Listener {
                id: (#[trigger] listeners[k]).id,
                port: listeners[k].port,
                waiting: reports[k].state == TcpState::Listen,
            },
        ) by {
            if k < n {
                assert(rest[k] == listeners[k]);
            }
        }
        assert forall|k: int|
            0 <= k < listeners.len() && reports[k].state != TcpState::Listen && reports[k].state
                != TcpState::SynReceived && reports[k].client is Some && reports[k].server is Some implies y.contains(
            (
                Terminated {
                    id: StreamId((#[trigger] listeners[k]).id),
                    client: reports[k].client->0,
                    server: reports[k].server->0,
                },
                reports[k].state == TcpState::Closed,
            ),
        ) by {
            if k < n {
                assert(rest[k] == listeners[k]);
            }
        }
        assert forall|k: int|
            0 <= k < listeners.len() && reports[k].state != TcpState::Listen && reports[k].state
                != TcpState::SynReceived && !(reports[k].client is Some && reports[k].server is Some)
                implies z.contains((#[trigger] listeners[k]).id) by {
            if k < n {
                assert(rest[k] == listeners[k]);
            }
        }
    }
}

/// Each connection goes on or has ended, exactly as its socket says; one that ended was
/// reset by the peer exactly if it was not being closed here.
pub proof fn every_connection_goes_on_or_ends(list: Seq<(Terminated, bool)>, closing: Seq<u64>)
    ensures
        going(list).len() + finished(list, closing).len() == list.len(),
        forall|i: int| 0 <= i < list.len() && !(#[trigger] list[i]).1 ==> going(list).contains(list[i].0),
        forall|i: int|
            0 <= i < list.len() && (#[trigger] list[i]).1 ==> finished(list, closing).contains(
                Ended { id: list[i].0.id, reset: !closing.contains(list[i].0.id.0) },
            ),
    decreases list.len(),
{
    if list.len() > 0 {
        let rest = list.drop_last();
        every_connection_goes_on_or_ends(rest, closing);
        let a = going(rest);
        let b = finished(rest, closing);
        let x = going(list);
        let y = finished(list, closing);
        assert forall|t: Terminated| a.contains(t) implies x.contains(t) by {
            let i = choose|i: int| 0 <= i < a.len() && a[i] == t;
            assert(x[i] == t);
        }
        assert forall|e: Ended| b.contains(e) implies y.contains(e) by {
            let i = choose|i: int| 0 <= i < b.len() && b[i] == e;
            assert(y[i] == e);
        }
        if x.len() > a.len() {
            assert(x[a.len() as int] == x.last());
        }
        if y.len() > b.len() {
            assert(y[b.len() as int] == y.last());
        }
        assert forall|i: int| 0 <= i < list.len() && !(#[trigger] list[i]).1 implies x.contains(list[i].0) by {
            if i < rest.len() {
                assert(rest[i] == list[i]);
            }
        }
        assert forall|i: int| 0 <= i < list.len() && (#[trigger] list[i]).1 implies y.contains(
            Ended { id: list[i].0.id, reset: !closing.contains(list[i].0.id.0) },
        ) by {
            if i < rest.len() {
                assert(rest[i] == list[i]);
            }
        }
    }
}

proof fn lemma_count_append(a: Seq<u16>, b: Seq<u16>, port: u16)
    ensures
        count(a + b, port) == count(a, port) + count(b, port),
    decreases b.len(),
{
    if b.len() == 0 {
        assert(a + b =~= a);
    } else {
        lemma_count_append(a, b.drop_last(), port);
        assert((a + b).drop_last() =~= a + b.drop_last());
    }
}

proof fn lemma_count_copies(p: u16, n: int, port: u16)
    ensures
        count(copies(p, n), port) == (if p == port && n > 0 {
            n
        } else {
            0
        }),
    decreases n,
{
    if n > 0 {
        lemma_count_copies(p, n - 1, port);
        assert(copies(p, n).drop_last() =~= copies(p, n - 1));
    }
}

/// Every port gets as many listeners as its backlog lacks, as long as there is room: what
/// is opened stays within the budget, no port is given more than its backlog, a port that
/// is not listened on gets none, and where the budget is not used up no port lacks any.
pub proof fn every_port_has_its_backlog(
    ports: Seq<u16>,
    listeners: Seq<Listener>,
    backlog: int,
    budget: int,
    port: u16,
)
    requires
        budget >= 0,
    ensures
        lacking(ports, listeners, backlog, budget).len() <= budget,
        !ports.contains(port) ==> count(lacking(ports, listeners, backlog, budget), port) == 0,
        waiting(listeners, port) + count(lacking(ports, listeners, backlog, budget), port) <= backlog || count(
            lacking(ports, listeners, backlog, budget),
            port,
        ) == 0,
        ports.contains(port) && lacking(ports, listeners, backlog, budget).len() < budget ==> waiting(listeners, port)
            + count(lacking(ports, listeners, backlog, budget), port) >= backlog,
    decreases ports.len(),
{
    if ports.len() > 0 {
        let rest = ports.drop_last();
        every_port_has_its_backlog(rest, listeners, backlog, budget, port);
        let before = lacking(rest, listeners, backlog, budget);
        let last = ports.last();
        let need = backlog - waiting(listeners, last) - count(before, last);
        let room = budget - before.len();
        let n = if need < room {
            need
        } else {
            room
        };
        lemma_count_append(before, copies(last, n), port);
        lemma_count_copies(last, n, port);
        if ports.contains(port) && port != last {
            let i = choose|i: int| 0 <= i < ports.len() && ports[i] == port;
            assert(rest[i] == port);
        }
        if rest.contains(port) {
            let i = choose|i: int| 0 <= i < rest.len() && rest[i] == port;
            assert(ports[i] == port);
        }
        assert(ports[ports.len() - 1] == last);
    }
}

/// A book is opened exactly where its sockets suffice for the backlog of every port.
pub proof fn a_book_needs_sockets_for_every_backlog(
    ports: &[u16],
    limits: TerminationLimits,
    r: Result<LocalStack, TerminationError>,
)
    requires
        call_ensures(LocalStack::new, (ports, limits), r),
    ensures
        r is Ok <==> ports@.len() * limits.backlog <= limits.max_sockets,
        r matches Ok(s) ==> s.ports@ == ports@ && s.limits == limits && !s.every_port && s.listeners@.len() == 0
            && s.established@.len() == 0,
{
}

/// Connections are handed out in the order in which they were accepted, each once.
pub proof fn connections_are_handed_out_in_order(s: &mut LocalStack, r: Option<Terminated>)
    requires
        call_ensures(LocalStack::poll_accept, (s,), r),
    ensures
        r is None <==> old(s).accepted@.len() == 0,
        r matches Some(t) ==> seq![t] + final(s).accepted@ == old(s).accepted@,
        final(s).established@ == old(s).established@ && final(s).closed@ == old(s).closed@,
{
    if r is Some {
        assert(seq![r->0] + final(s).accepted@ =~= old(s).accepted@);
    }
}

/// A port that is not listened on gets a listener for each SYN to it, where every port is
/// terminated and there is room; a packet that asks for nothing changes nothing.
pub proof fn a_syn_gets_its_listener(s: &mut LocalStack, packet: &[u8], r: Option<u16>)
    requires
        old(s).wf(),
        call_ensures(LocalStack::arrived, (s, packet), r),
    ensures
        !old(s).every_port ==> r is None && *final(s) == *old(s),
        syn_port(packet@) is None ==> r is None && *final(s) == *old(s),
        r is Some ==> r == syn_port(packet@) && !old(s).ports@.contains(r->0) && old(s).listeners@.len()
            + old(s).established@.len() < old(s).limits.max_sockets,
        old(s).every_port && syn_port(packet@) is Some && !old(s).ports@.contains(syn_port(packet@)->0) && waiting(
            old(s).listeners@,
            syn_port(packet@)->0,
        ) == 0 && old(s).listeners@.len() + old(s).established@.len() < old(s).limits.max_sockets ==> r == syn_port(
            packet@,
        ),
{
    if syn_port(packet@) is Some {
        let port = syn_port(packet@)->0;
        let w = old(s).wanted@.push(port);
        assert(w.drop_last() =~= old(s).wanted@);
        assert(count(w, port) >= 1);
    }
}

/// Milliseconds are counted down to whole ones from when the terminator was made, and
/// microseconds up to when work is due; neither is ever negative.
pub proof fn times_are_never_negative(base: Instant, now: Instant, r: i64, at: i64, here: i64, ahead: u64)
    requires
        call_ensures(elapsed_millis, (base, now), r),
        call_ensures(ahead_micros, (at, here), ahead),
    ensures
        r >= 0,
        now.nanos <= base.nanos ==> r == 0,
        now.nanos > base.nanos && r < i64::MAX ==> r * 1_000_000 <= now.nanos - base.nanos < (r + 1) * 1_000_000,
        at <= here ==> ahead == 0,
        at > here ==> here + ahead == at,
{
}

} // verus!
