//! The CONNECT-IP tunnel: whole IP packets as HTTP Datagrams.
//!
//! A datagram is two variable-length integers, the flow and the context, and
//! then the packet. A usable flow exists only in an established tunnel, so
//! nothing can be addressed before the proxy has agreed to carry it.

use vstd::prelude::*;

#[allow(unused_imports)]
use crate::fields;
use crate::fields::{field, Field};
use crate::plan::{DatagramFidelity, NatBehavior, PathProperties};
use crate::target::SocketAddr;
#[allow(unused_imports)]
use crate::varint;

verus! {

/// The context of a whole IP packet.
pub const IP_PACKET_CONTEXT: u64 = 0;

/// What wraps one tunnelled packet at most: outer IPv6 and UDP headers, a QUIC
/// short header, the tag, the frame, and the two integers in front.
pub const MASQUE_OVERHEAD_BYTES: u16 = 40 + 8 + 1 + 20 + 4 + 16 + 3 + 5;

/// What the two integers add in front of a packet at most.
pub const PREFIX_BYTES: u16 = 5;

/// How a proxy is reached and asked.
pub struct MasqueConfig {
    /// The proxy's UDP endpoint.
    pub peer: SocketAddr,
    /// The local endpoint that packets are stamped with.
    pub local: SocketAddr,
    /// The name that the proxy's certificate is checked against.
    pub server_name: String,
    pub authority: String,
    pub path: String,
    pub protocol: String,
    /// How the proxy's own translation maps endpoints, as measured.
    pub nat_behavior: NatBehavior,
}

impl MasqueConfig {
    /// The registered protocol identifier.
    pub const STANDARD_PROTOCOL: &'static str = "connect-ip";

    /// What one large deployment expects instead.
    pub const CLOUDFLARE_PROTOCOL: &'static str = "cf-connect-ip";
}

/// Why a tunnel is no longer usable.
#[derive(Clone, Copy, Debug, PartialEq, Eq, Structural)]
pub enum CloseReason {
    /// The proxy answered the request with another status than success.
    Refused(u16),
    /// The connection closed.
    ConnectionClosed,
    /// The answer had no status.
    Malformed,
}

/// The tunnel's lifecycle.
#[derive(Clone, Copy, Debug, PartialEq, Eq, Structural)]
pub enum TunnelState {
    /// The handshake is in flight; nothing was asked yet.
    Connecting,
    /// The request is on the wire.
    Requested { flow_id: u64 },
    /// The proxy agreed to carry packets on the flow.
    Established { flow_id: u64 },
    Closed(CloseReason),
}

/// A packet as a datagram of a flow.
pub open spec fn datagram_of(flow_id: u64, packet: Seq<u8>) -> Seq<u8> {
    varint::encoding(flow_id) + varint::encoding(IP_PACKET_CONTEXT) + packet
}

/// The packet in a datagram of the flow.
pub open spec fn packet_in(datagram: Seq<u8>, flow_id: u64) -> Option<Seq<u8>> {
    match varint::reading(datagram) {
        Some((flow, n)) if flow == flow_id => {
            let rest = datagram.skip(n);
            match varint::reading(rest) {
                Some((context, m)) if context == IP_PACKET_CONTEXT && rest.skip(m).len() > 0 => Some(
                    rest.skip(m),
                ),
                _ => None,
            }
        },
        _ => None,
    }
}

/// Writes one packet as a datagram of the flow, in place of what `out` held.
pub fn encode_ip_datagram(flow_id: u64, packet: &[u8], out: &mut Vec<u8>)
    requires
        flow_id < varint::LIMIT,
    ensures
        final(out)@ == datagram_of(flow_id, packet@),
{
    out.clear();
    varint::put(flow_id, out);
    varint::put(IP_PACKET_CONTEXT, out);
    out.extend_from_slice(packet);
    assert(out@ =~= datagram_of(flow_id, packet@));
}

/// The packet in a datagram; `None` unless the datagram is of this flow, holds
/// a whole packet by its context, and the packet is not empty.
pub fn decode_ip_datagram(datagram: &[u8], expected_flow_id: u64) -> (r: Option<&[u8]>)
    ensures
        match r {
            Some(packet) => packet_in(datagram@, expected_flow_id) == Some(packet@),
            None => packet_in(datagram@, expected_flow_id) is None,
        },
{
    match varint::get(datagram) {
        Some((flow_id, rest)) => {
            if flow_id != expected_flow_id {
                return None;
            }
            match varint::get(rest) {
                Some((context, packet)) => {
                    if context != IP_PACKET_CONTEXT || packet.len() == 0 {
                        return None;
                    }
                    Some(packet)
                },
                None => None,
            }
        },
        None => None,
    }
}

/// Decoding gives back the packet on its own flow, and nothing on another.
pub proof fn decoding_undoes_encoding(flow_id: u64, other: u64, packet: Seq<u8>)
    requires
        flow_id < varint::LIMIT,
    ensures
        packet_in(datagram_of(flow_id, packet), flow_id) == (if packet.len() > 0 {
            Some(packet)
        } else {
            None
        }),
        other != flow_id ==> packet_in(datagram_of(flow_id, packet), other) is None,
{
    let d = datagram_of(flow_id, packet);
    let a = varint::encoding(flow_id);
    let b = varint::encoding(IP_PACKET_CONTEXT);
    assert(d =~= a + (b + packet));
    varint::reading_undoes_putting(flow_id, b + packet);
    varint::reading_undoes_putting(IP_PACKET_CONTEXT, packet);
    assert(d.skip(a.len() as int) =~= b + packet);
    assert((b + packet).skip(b.len() as int) =~= packet);
}

/// The number that decimal digits write.
pub open spec fn digits_value(s: Seq<u8>) -> int
    decreases s.len(),
{
    if s.len() == 0 {
        0
    } else {
        digits_value(s.drop_last()) * 10 + (s.last() - 48)
    }
}

/// Whether every byte is a decimal digit.
pub open spec fn all_digits(s: Seq<u8>) -> bool {
    forall|i: int| 0 <= i < s.len() ==> 48 <= #[trigger] s[i] <= 57
}

/// The 16-bit number that `s` writes: digits, with a plus sign before them at
/// most.
pub open spec fn number_in(s: Seq<u8>) -> Option<u16> {
    let d = if s.len() > 0 && s[0] == 43 {
        s.skip(1)
    } else {
        s
    };
    if d.len() > 0 && all_digits(d) && digits_value(d) <= u16::MAX {
        Some(digits_value(d) as u16)
    } else {
        None
    }
}

proof fn lemma_digits_grow(s: Seq<u8>, i: int)
    requires
        0 <= i <= s.len(),
        all_digits(s),
    ensures
        0 <= digits_value(s.take(i)) <= digits_value(s),
    decreases s.len() - i,
{
    lemma_digits_positive(s.take(i));
    if i < s.len() {
        assert(s.take(i + 1).drop_last() =~= s.take(i));
        lemma_digits_grow(s, i + 1);
        assert(48 <= s[i] <= 57);
    } else {
        assert(s.take(i) =~= s);
    }
}

proof fn lemma_digits_positive(s: Seq<u8>)
    requires
        all_digits(s),
    ensures
        digits_value(s) >= 0,
    decreases s.len(),
{
    if s.len() > 0 {
        assert forall|i: int| 0 <= i < s.drop_last().len() implies 48 <= #[trigger] s.drop_last()[i]
            <= 57 by {
            assert(s[i] == s.drop_last()[i]);
        }
        lemma_digits_positive(s.drop_last());
        assert(48 <= s[s.len() - 1] <= 57);
    }
}

pub fn parse_number(s: &[u8]) -> (r: Option<u16>)
    ensures
        r == number_in(s@),
{
    let n: usize = s.len();
    let from: usize = if n > 0 && s[0] == 43 {
        1
    } else {
        0
    };
    let ghost d = s@.skip(from as int);
    assert(from == 0 ==> d =~= s@);
    if n == from {
        return None;
    }
    let mut i: usize = from;
    let mut v: u32 = 0;
    assert(d.take(0) =~= seq![]);
    while i < n
        invariant
            from <= i <= n,
            from < n,
            n == s@.len(),
            d == s@.skip(from as int),
            number_in(s@) == (if d.len() > 0 && all_digits(d) && digits_value(d) <= u16::MAX {
                Some(digits_value(d) as u16)
            } else {
                None::<u16>
            }),
            v <= u16::MAX,
            v == digits_value(d.take(i - from)),
            forall|j: int| 0 <= j < i - from ==> 48 <= #[trigger] d[j] <= 57,
        decreases n - i,
    {
        let b: u8 = s[i];
        assert(d[i - from] == b);
        if b < 48 || b > 57 {
            assert(!all_digits(d));
            return None;
        }
        v = v * 10 + (b - 48) as u32;
        proof {
            assert(d.take(i - from + 1).drop_last() =~= d.take(i - from));
            if v > u16::MAX && all_digits(d) {
                lemma_digits_grow(d, i - from + 1);
            }
        }
        if v > 65535 {
            return None;
        }
        i += 1;
    }
    assert(d.take(n - from) =~= d);
    Some(v as u16)
}

/// `:status`, in bytes.
pub open spec fn status_name() -> Seq<u8> {
    fields::ascii(":status"@)
}

/// The status that a header block answers with.
pub open spec fn status_in(block: Seq<Field>) -> Option<u16> {
    match fields::first_value(block, status_name()) {
        Some(value) => number_in(value),
        None => None,
    }
}

pub fn status_of(block: &Vec<Field>) -> (r: Option<u16>)
    ensures
        r == status_in(block@),
{
    let name: &[u8] = ":status".as_bytes();
    match fields::find_value(block, name) {
        Some(value) => parse_number(value.as_slice()),
        None => None,
    }
}

/// The request that asks a proxy for a tunnel.
pub open spec fn request_of(config: MasqueConfig) -> Seq<(Seq<u8>, Seq<u8>)> {
    seq![
        (fields::ascii(":method"@), fields::ascii("CONNECT"@)),
        (fields::ascii(":protocol"@), fields::ascii(config.protocol@)),
        (fields::ascii(":scheme"@), fields::ascii("https"@)),
        (fields::ascii(":authority"@), fields::ascii(config.authority@)),
        (fields::ascii(":path"@), fields::ascii(config.path@)),
        (fields::ascii("capsule-protocol"@), fields::ascii("?1"@)),
    ]
}

/// The header block of the request that asks for a tunnel.
pub fn connect_request(config: &MasqueConfig) -> (r: Vec<Field>)
    ensures
        fields::block(r@) == request_of(*config),
{
    let mut r: Vec<Field> = Vec::new();
    r.push(field(":method", "CONNECT"));
    r.push(field(":protocol", config.protocol.as_str()));
    r.push(field(":scheme", "https"));
    r.push(field(":authority", config.authority.as_str()));
    r.push(field(":path", config.path.as_str()));
    r.push(field("capsule-protocol", "?1"));
    assert(fields::block(r@) =~= request_of(*config));
    r
}

/// Where an answer with `status` takes the tunnel.
pub open spec fn after_answer(state: TunnelState, status: Option<u16>) -> TunnelState {
    match (status, state) {
        (Some(s), TunnelState::Requested { flow_id }) if 200 <= s < 300 => TunnelState::Established {
            flow_id,
        },
        (Some(s), _) => TunnelState::Closed(CloseReason::Refused(s)),
        (None, _) => TunnelState::Closed(CloseReason::Malformed),
    }
}

/// What is done next on a connection that may have moved.
#[derive(Clone, Copy, Debug, PartialEq, Eq, Structural)]
pub enum Advance {
    /// The connection is gone; the tunnel is closed.
    Stop,
    /// The handshake is still in flight.
    Wait,
    /// Open HTTP and send the request, then read.
    Ask,
    /// Read answers and datagrams.
    Read,
}

/// The state of one tunnel and its count of carried packets.
#[derive(Debug)]
pub struct MasqueEgress {
    pub state: TunnelState,
    pub fast_path_packets: u64,
}

impl MasqueEgress {
    pub fn new() -> (r: Self)
        ensures
            r.state == TunnelState::Connecting,
            r.fast_path_packets == 0,
    {
        MasqueEgress { state: TunnelState::Connecting, fast_path_packets: 0 }
    }

    pub fn state(&self) -> (r: &TunnelState)
        ensures
            *r == self.state,
    {
        &self.state
    }

    pub fn fast_path_packets(&self) -> (r: u64)
        ensures
            r == self.fast_path_packets,
    {
        self.fast_path_packets
    }

    /// What to do on a connection that is closed or not, established or not,
    /// with HTTP opened on it or not. A closed connection closes the tunnel.
    pub fn advance(&mut self, closed: bool, established: bool, opened: bool) -> (r: Advance)
        ensures
            r == (if closed {
                Advance::Stop
            } else if !established {
                Advance::Wait
            } else if !opened {
                Advance::Ask
            } else {
                Advance::Read
            }),
            final(self).state == (if closed {
                TunnelState::Closed(CloseReason::ConnectionClosed)
            } else {
                old(self).state
            }),
            final(self).fast_path_packets == old(self).fast_path_packets,
    {
        if closed {
            self.state = TunnelState::Closed(CloseReason::ConnectionClosed);
            return Advance::Stop;
        }
        if !established {
            return Advance::Wait;
        }
        if opened {
            Advance::Read
        } else {
            Advance::Ask
        }
    }

    /// The request went out on `stream_id`; the flow is a quarter of it.
    pub fn requested(&mut self, stream_id: u64)
        ensures
            final(self).state == (TunnelState::Requested { flow_id: stream_id / 4 }),
            final(self).fast_path_packets == old(self).fast_path_packets,
    {
        self.state = TunnelState::Requested { flow_id: stream_id / 4 };
    }

    /// A header block arrived.
    pub fn answered(&mut self, block: &Vec<Field>)
        ensures
            final(self).state == after_answer(old(self).state, status_in(block@)),
            final(self).fast_path_packets == old(self).fast_path_packets,
    {
        let status: Option<u16> = status_of(block);
        self.state = match (status, self.state) {
            (Some(s), TunnelState::Requested { flow_id }) if 200 <= s && s < 300 =>
                TunnelState::Established { flow_id },
            (Some(s), _) => TunnelState::Closed(CloseReason::Refused(s)),
            (None, _) => TunnelState::Closed(CloseReason::Malformed),
        };
    }

    /// The request stream finished, or the connection failed.
    pub fn ended(&mut self)
        ensures
            final(self).state == TunnelState::Closed(CloseReason::ConnectionClosed),
            final(self).fast_path_packets == old(self).fast_path_packets,
    {
        self.state = TunnelState::Closed(CloseReason::ConnectionClosed);
    }

    /// Writes the datagram that carries `packet`, if the tunnel carries any.
    pub fn outgoing(&self, packet: &[u8], out: &mut Vec<u8>) -> (r: bool)
        requires
            self.state matches TunnelState::Established { flow_id } ==> flow_id < varint::LIMIT,
        ensures
            r == (self.state is Established),
            match self.state {
                TunnelState::Established { flow_id } => final(out)@ == datagram_of(
                    flow_id,
                    packet@,
                ),
                _ => final(out)@ == old(out)@,
            },
    {
        match self.state {
            TunnelState::Established { flow_id } => {
                encode_ip_datagram(flow_id, packet, out);
                true
            },
            _ => false,
        }
    }

    /// Counts a packet that the connection took.
    pub fn carried(&mut self)
        ensures
            final(self).state == old(self).state,
            final(self).fast_path_packets == (if old(self).fast_path_packets < u64::MAX {
                (old(self).fast_path_packets + 1) as u64
            } else {
                u64::MAX
            }),
    {
        self.fast_path_packets = self.fast_path_packets.saturating_add(1);
    }

    /// The packet that an arriving datagram carries for this tunnel.
    pub fn incoming<'a>(&self, datagram: &'a [u8]) -> (r: Option<&'a [u8]>)
        ensures
            match self.state {
                TunnelState::Established { flow_id } => match r {
                    Some(packet) => packet_in(datagram@, flow_id) == Some(packet@),
                    None => packet_in(datagram@, flow_id) is None,
                },
                _ => r is None,
            },
    {
        match self.state {
            TunnelState::Established { flow_id } => decode_ip_datagram(datagram, flow_id),
            _ => None,
        }
    }
}

/// A tunnel is established only by a success that answers its own request, and
/// on the flow that it asked for.
pub proof fn established_only_by_an_accepted_request(state: TunnelState, status: Option<u16>)
    ensures
        after_answer(state, status) matches TunnelState::Established { flow_id } ==> state
            == (TunnelState::Requested { flow_id }) && status is Some && 200 <= status->0 < 300,
        (state matches TunnelState::Requested { flow_id } && status matches Some(s) && 200 <= s
            < 300) ==> after_answer(state, status) is Established,
{
}

/// What the path offers, given how much the connection can write in one
/// datagram, if it says so.
pub open spec fn path_of(mapping: NatBehavior, writable: Option<usize>) -> PathProperties {
    PathProperties {
        datagram_fidelity: DatagramFidelity::Native,
        overhead_bytes: MASQUE_OVERHEAD_BYTES,
        max_datagram_size: match writable {
            Some(len) => {
                let left = if len >= PREFIX_BYTES {
                    len - PREFIX_BYTES
                } else {
                    0
                };
                if left <= u16::MAX {
                    Some(left as u16)
                } else {
                    None
                }
            },
            None => None,
        },
        preserves_ecn: false,
        nat_behavior: mapping,
    }
}

pub fn properties(mapping: NatBehavior, writable: Option<usize>) -> (r: PathProperties)
    ensures
        r == path_of(mapping, writable),
{
    let max_datagram_size: Option<u16> = match writable {
        Some(len) => {
            let left: usize = len.saturating_sub(PREFIX_BYTES as usize);
            if left <= 65535 {
                Some(left as u16)
            } else {
                None
            }
        },
        None => None,
    };
    PathProperties {
        datagram_fidelity: DatagramFidelity::Native,
        overhead_bytes: MASQUE_OVERHEAD_BYTES,
        max_datagram_size,
        preserves_ecn: false,
        nat_behavior: mapping,
    }
}

/// A datagram of a flow: the flow, the context zero, and the packet as it is.
pub proof fn a_datagram_reads_as_written(flow_id: u64, packet: &[u8], out: &mut Vec<u8>, r: ())
    requires
        flow_id < 0x4000_0000_0000_0000,
        call_ensures(encode_ip_datagram, (flow_id, packet, out), r),
    ensures
        varint::reading(final(out)@) matches Some((flow, n)) && flow == flow_id && (varint::reading(
            final(out)@.skip(n),
        ) matches Some((context, m)) && context == 0 && m == 1 && final(out)@.skip(n + m) == packet@),
{
    let d = final(out)@;
    let a = varint::encoding(flow_id);
    let b = varint::encoding(IP_PACKET_CONTEXT);
    assert(d =~= a + (b + packet@));
    varint::reading_undoes_putting(flow_id, b + packet@);
    varint::reading_undoes_putting(IP_PACKET_CONTEXT, packet@);
    assert(d.skip(a.len() as int) =~= b + packet@);
    assert(d.skip(a.len() + b.len() as int) =~= packet@);
}

/// What comes out of a tunnel is what went into the other end: a packet that is sent on
/// an established tunnel is received as it was by a tunnel of the same flow, and by no
/// other; and a tunnel that is not established sends and receives nothing.
pub proof fn a_tunnel_carries_packets_as_they_are(
    here: &MasqueEgress,
    there: &MasqueEgress,
    packet: &[u8],
    out: &mut Vec<u8>,
    sent: bool,
    datagram: &[u8],
    r: Option<&[u8]>,
)
    requires
        here.state matches TunnelState::Established { flow_id } ==> flow_id < 0x4000_0000_0000_0000,
        call_ensures(MasqueEgress::outgoing, (here, packet, out), sent),
        call_ensures(MasqueEgress::incoming, (there, datagram), r),
        packet@.len() > 0,
    ensures
        sent <==> here.state is Established,
        !sent ==> final(out)@ == old(out)@,
        !(there.state is Established) ==> r is None,
        sent && datagram@ == final(out)@ && there.state == here.state ==> r is Some && r->0@ == packet@,
        sent && datagram@ == final(out)@ && there.state is Established && there.state != here.state ==> r is None,
{
    if sent {
        let flow = here.state->Established_flow_id;
        let other = there.state->Established_flow_id;
        decoding_undoes_encoding(flow, other, packet@);
    }
}

/// A status is three decimal digits as they are written, and so is any other number that
/// fits; a sign, a letter or too large a number is none.
pub proof fn a_number_is_read_as_written(s: &[u8], r: Option<u16>)
    requires
        call_ensures(parse_number, (s,), r),
    ensures
        s@.len() == 3 && 49 <= s@[0] <= 57 && 48 <= s@[1] <= 57 && 48 <= s@[2] <= 57 ==> r is Some && r->0 == (s@[0]
            - 48) * 100 + (s@[1] - 48) * 10 + (s@[2] - 48),
        s@.len() == 0 ==> r is None,
        s@.len() > 0 && (exists|i: int| 1 <= i < s@.len() && !(48 <= #[trigger] s@[i] <= 57)) ==> r is None,
        s@.len() > 0 && !(48 <= s@[0] <= 57) && s@[0] != 43 ==> r is None,
{
    let t = s@;
    if t.len() == 3 && 49 <= t[0] <= 57 && 48 <= t[1] <= 57 && 48 <= t[2] <= 57 {
        assert(t.drop_last() =~= seq![t[0], t[1]]);
        assert(seq![t[0], t[1]].drop_last() =~= seq![t[0]]);
        assert(seq![t[0]].drop_last() =~= seq![]);
        assert(digits_value(seq![]) == 0);
        assert(digits_value(seq![t[0]]) == t[0] - 48);
        assert(digits_value(seq![t[0], t[1]]) == (t[0] - 48) * 10 + (t[1] - 48));
        assert(all_digits(t));
    }
    if t.len() > 0 && (exists|i: int| 1 <= i < t.len() && !(48 <= #[trigger] t[i] <= 57)) {
        let i = choose|i: int| 1 <= i < t.len() && !(48 <= #[trigger] t[i] <= 57);
        if t[0] == 43 {
            assert(t.skip(1)[i - 1] == t[i]);
        }
    }
}

/// A connection that is lost closes its tunnel, whatever else holds; one that stands
/// waits for its handshake, then asks, then reads.
pub proof fn a_tunnel_asks_once_its_connection_stands(
    e: &mut MasqueEgress,
    closed: bool,
    established: bool,
    opened: bool,
    r: Advance,
)
    requires
        call_ensures(MasqueEgress::advance, (e, closed, established, opened), r),
    ensures
        closed <==> r == Advance::Stop,
        closed ==> final(e).state == TunnelState::Closed(CloseReason::ConnectionClosed),
        !closed ==> final(e).state == old(e).state,
        !closed && !established <==> r == Advance::Wait,
        !closed && established && !opened <==> r == Advance::Ask,
        !closed && established && opened <==> r == Advance::Read,
{
}

/// A request's flow is a quarter of its stream. An answer from 200 to 299 establishes
/// the tunnel on the flow that was asked for; any other status closes it, and names the
/// status; no status at all closes it as malformed.
pub proof fn an_answer_decides_the_tunnel(e: &mut MasqueEgress, block: &Vec<Field>, r: ())
    requires
        call_ensures(MasqueEgress::answered, (e, block), r),
    ensures
        status_in(block@) is None ==> final(e).state == TunnelState::Closed(CloseReason::Malformed),
        status_in(block@) matches Some(s) ==> {
            &&& old(e).state is Requested && 200 <= s <= 299 ==> final(e).state == (TunnelState::Established {
                flow_id: old(e).state->Requested_flow_id,
            })
            &&& !(old(e).state is Requested && 200 <= s <= 299) ==> final(e).state == TunnelState::Closed(
                CloseReason::Refused(s),
            )
        },
{
}

/// A tunnel is native and costs 97 bytes a packet; what fits in a datagram is five bytes
/// less than the connection can write, if it says how much that is.
pub proof fn a_tunnel_offers_what_its_connection_can_write(
    mapping: NatBehavior,
    writable: Option<usize>,
    r: PathProperties,
)
    requires
        call_ensures(properties, (mapping, writable), r),
    ensures
        r.datagram_fidelity == DatagramFidelity::Native,
        r.overhead_bytes == 97,
        !r.preserves_ecn,
        r.nat_behavior == mapping,
        writable is None ==> r.max_datagram_size is None,
        writable matches Some(n) ==> {
            &&& 5 <= n <= 65540 ==> r.max_datagram_size is Some && r.max_datagram_size->0 + 5 == n
            &&& n < 5 ==> r.max_datagram_size == Some(0u16)
            &&& n > 65540 ==> r.max_datagram_size is None
        },
{
}

/// A tunnel is asked for by an extended CONNECT: its protocol, scheme, authority and path,
/// and that capsules are spoken, in that order and nothing else.
pub proof fn a_tunnel_is_asked_for_by_connect(config: &MasqueConfig, r: Vec<Field>)
    requires
        call_ensures(connect_request, (config,), r),
    ensures
        r@.len() == 6,
        r@[0].0@ == fields::ascii(":method"@) && r@[0].1@ == fields::ascii("CONNECT"@),
        r@[1].0@ == fields::ascii(":protocol"@) && r@[1].1@ == fields::ascii(config.protocol@),
        r@[2].0@ == fields::ascii(":scheme"@) && r@[2].1@ == fields::ascii("https"@),
        r@[3].0@ == fields::ascii(":authority"@) && r@[3].1@ == fields::ascii(config.authority@),
        r@[4].0@ == fields::ascii(":path"@) && r@[4].1@ == fields::ascii(config.path@),
        r@[5].0@ == fields::ascii("capsule-protocol"@) && r@[5].1@ == fields::ascii("?1"@),
{
    let b = fields::block(r@);
    assert(b.len() == 6);
    assert(b[0] == (r@[0].0@, r@[0].1@) && b[1] == (r@[1].0@, r@[1].1@) && b[2] == (r@[2].0@, r@[2].1@));
    assert(b[3] == (r@[3].0@, r@[3].1@) && b[4] == (r@[4].0@, r@[4].1@) && b[5] == (r@[5].0@, r@[5].1@));
}

/// A request's flow is a quarter of its stream, and what ends a tunnel closes it.
pub proof fn a_flow_is_a_quarter_of_its_stream(e: &mut MasqueEgress, stream_id: u64, r: ())
    requires
        call_ensures(MasqueEgress::requested, (e, stream_id), r),
    ensures
        final(e).state matches TunnelState::Requested { flow_id } && flow_id * 4 <= stream_id < flow_id * 4 + 4,
        final(e).fast_path_packets == old(e).fast_path_packets,
{
}

} // verus!
