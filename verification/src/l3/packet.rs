//! IP packets as they cross the device.

use vstd::prelude::*;
#[allow(unused_imports)]
use crate::wire;
use vstd::slice::slice_subrange;

use etherparse::NetSlice::{Arp, Ipv4, Ipv6};
use etherparse::{SlicedPacket, TransportSlice};

use crate::addr::IpAddr;
use crate::addr::Ipv4Addr;
use crate::addr::Ipv6Addr;
use crate::text::push_text;

verus! {

/// What a packet carries above the network layer.
#[derive(Clone, Copy, Debug, PartialEq, Eq, Structural)]
pub enum Transport {
    Tcp { source_port: u16, destination_port: u16 },
    Udp { source_port: u16, destination_port: u16 },
    Icmp(IcmpClass),
    Other,
    Fragment,
}

/// Whether an ICMP message is an error report.
///
/// RFC 1122 and RFC 4443 forbid answering an error with an error. IPv4 uses an
/// explicit list, while IPv6 uses the high bit of the type. Applying IPv6's
/// rule to IPv4 would classify Echo Request as an error and suppress a common
/// manual path-MTU check.
#[derive(Clone, Copy, Debug, PartialEq, Eq, Structural)]
pub enum IcmpClass {
    /// An ICMPv4 error type from RFC 1122's list, or an ICMPv6 type below 128.
    Error,
    /// A request, reply, notification, or other non-error ICMP message.
    Informational,
}

/// RFC 1122's closed list of ICMPv4 error types.
pub open spec fn is_icmpv4_error(kind: u8) -> bool {
    kind == 3 || kind == 4 || kind == 5 || kind == 11 || kind == 12
}

/// Applies RFC 1122's IPv4 error list. The gaps are intentional: IPv4 has no
/// type bit that can replace the list.
pub fn icmpv4_class(kind: u8) -> (class: IcmpClass)
    ensures
        class == (if is_icmpv4_error(kind) {
            IcmpClass::Error
        } else {
            IcmpClass::Informational
        }),
{
    match kind {
        3 | 4 | 5 | 11 | 12 => IcmpClass::Error,
        _ => IcmpClass::Informational,
    }
}

/// Applies RFC 4443 to every possible IPv6 type, including unassigned values.
pub fn icmpv6_class(kind: u8) -> (class: IcmpClass)
    ensures
        class == (if kind < 128 {
            IcmpClass::Error
        } else {
            IcmpClass::Informational
        }),
{
    if kind < 128 {
        IcmpClass::Error
    } else {
        IcmpClass::Informational
    }
}

/// The congestion mark of an IP header (RFC 3168).
#[derive(Clone, Copy, Debug, PartialEq, Eq, Structural)]
pub enum IpEcn {
    NotEct,
    Ect1,
    Ect0,
    CongestionExperienced,
}

impl IpEcn {
    /// The mark that a two-bit field stands for.
    pub open spec fn of(bits: u8) -> IpEcn {
        if bits == 0 {
            IpEcn::NotEct
        } else if bits == 1 {
            IpEcn::Ect1
        } else if bits == 2 {
            IpEcn::Ect0
        } else {
            IpEcn::CongestionExperienced
        }
    }

    fn from_bits(bits: u8) -> (e: IpEcn)
        ensures
            e == IpEcn::of(bits),
    {
        match bits {
            0 => IpEcn::NotEct,
            1 => IpEcn::Ect1,
            2 => IpEcn::Ect0,
            _ => IpEcn::CongestionExperienced,
        }
    }
}

/// The network layer of a sliced packet.
#[allow(inconsistent_fields)]
#[derive(Clone, Copy, Debug)]
pub enum Net {
    V4 { source: [u8; 4], destination: [u8; 4], ecn: u8, fragmented: bool, payload_len: usize },
    V6 { source: [u8; 16], destination: [u8; 16], ecn: u8, fragmented: bool, payload_len: usize },
    Arp,
    Missing,
}

/// The transport layer of a sliced packet, with the length of its payload.
#[derive(Clone, Copy, Debug, PartialEq, Eq)]
pub enum Carried {
    Tcp { source_port: u16, destination_port: u16, payload_len: usize },
    Udp { source_port: u16, destination_port: u16, payload_len: usize },
    /// ICMP, by its type.
    Control4 { kind: u8, payload_len: usize },
    /// ICMPv6, by its type.
    Control6 { kind: u8, payload_len: usize },
    Other,
}

/// What `etherparse::SlicedPacket::from_ip` makes of a packet: its layers, or
/// the text of its error.
pub uninterp spec fn sliced_ip(packet: Seq<u8>) -> Result<(Net, Carried), Seq<char>>;

/// Where the IP payload of a packet ends: at IPv4's total length, at IPv6's
/// payload length, or at the end of the bytes where IPv6 gives no length.
pub open spec fn ip_end(packet: Seq<u8>) -> int {
    if packet[0] / 16 == 4 {
        wire::be16(packet[2], packet[3]) as int
    } else if wire::be16(packet[4], packet[5]) == 0 && packet.len() > 40 {
        packet.len() as int
    } else {
        40 + wire::be16(packet[4], packet[5]) as int
    }
}

/// The network layer holds what the header's own bytes say.
pub open spec fn net_reads_header(packet: Seq<u8>, net: Net) -> bool {
    match net {
        Net::V4 { source, destination, ecn, fragmented, payload_len } => {
            &&& packet.len() >= 20
            &&& packet[0] / 16 == 4
            &&& packet[0] % 16 >= 5
            &&& (packet[0] % 16) * 4 + payload_len <= ip_end(packet) <= packet.len()
            &&& packet[9] != 51 ==> (packet[0] % 16) * 4 + payload_len == ip_end(packet)
            &&& source@ == packet.subrange(12, 16)
            &&& destination@ == packet.subrange(16, 20)
            &&& ecn == packet[1] % 4
            &&& fragmented == (wire::be16(packet[6], packet[7]) % 0x4000 != 0)
        },
        Net::V6 { source, destination, ecn, fragmented, payload_len } => {
            &&& packet.len() >= 40
            &&& packet[0] / 16 == 6
            &&& 40 + payload_len <= ip_end(packet) <= packet.len()
            &&& packet[6] == 6 || packet[6] == 17 || packet[6] == 58 ==> 40 + payload_len == ip_end(packet)
                && !fragmented
            &&& source@ == packet.subrange(8, 24)
            &&& destination@ == packet.subrange(24, 40)
            &&& ecn == (packet[1] / 16) % 4
        },
        _ => true,
    }
}

/// The length of a sliced network layer's payload.
pub open spec fn ip_payload_len(net: Net) -> int {
    match net {
        Net::V4 { payload_len, .. } => payload_len as int,
        Net::V6 { payload_len, .. } => payload_len as int,
        _ => 0,
    }
}

/// The transport layer holds what its header's own bytes say.
pub open spec fn carried_reads_header(packet: Seq<u8>, net: Net, carried: Carried) -> bool {
    let at = ip_end(packet) - ip_payload_len(net);
    match carried {
        Carried::Tcp { source_port, destination_port, payload_len } => {
            &&& (net is V4 || net is V6)
            &&& 20 <= (packet[at + 12] / 16) * 4
            &&& (packet[at + 12] / 16) * 4 + payload_len == ip_payload_len(net)
            &&& source_port == wire::be16(packet[at], packet[at + 1])
            &&& destination_port == wire::be16(packet[at + 2], packet[at + 3])
        },
        Carried::Udp { source_port, destination_port, payload_len } => {
            &&& (net is V4 || net is V6)
            &&& 8 + payload_len <= ip_payload_len(net)
            &&& 8 + payload_len == (if wire::be16(packet[at + 4], packet[at + 5]) == 0 {
                ip_payload_len(net)
            } else {
                wire::be16(packet[at + 4], packet[at + 5]) as int
            })
            &&& source_port == wire::be16(packet[at], packet[at + 1])
            &&& destination_port == wire::be16(packet[at + 2], packet[at + 3])
        },
        Carried::Control4 { kind, payload_len } => {
            &&& (net is V4 || net is V6)
            &&& 8 + payload_len <= ip_payload_len(net)
            &&& kind == packet[at]
        },
        Carried::Control6 { kind, payload_len } => {
            &&& (net is V4 || net is V6)
            &&& 8 + payload_len == ip_payload_len(net)
            &&& kind == packet[at]
        },
        Carried::Other => true,
    }
}

/// Whether a packet is a whole UDP datagram behind a plain IPv4 header, each
/// length field saying exactly what is there.
pub open spec fn is_plain_udp4(packet: Seq<u8>) -> bool {
    &&& packet.len() >= 28
    &&& packet[0] == 0x45
    &&& wire::be16(packet[2], packet[3]) == packet.len()
    &&& wire::be16(packet[6], packet[7]) % 0x4000 == 0
    &&& packet[9] == 17
    &&& wire::be16(packet[24], packet[25]) == packet.len() - 20
}

/// Whether a packet is a whole UDP datagram behind a plain IPv6 header, each
/// length field saying exactly what is there.
pub open spec fn is_plain_udp6(packet: Seq<u8>) -> bool {
    &&& packet.len() >= 48
    &&& packet[0] / 16 == 6
    &&& wire::be16(packet[4], packet[5]) == packet.len() - 40
    &&& packet[6] == 17
    &&& wire::be16(packet[44], packet[45]) == packet.len() - 40
}

/// Whether a packet is a whole TCP segment behind a plain IPv4 header.
pub open spec fn is_plain_tcp4(packet: Seq<u8>) -> bool {
    &&& packet.len() >= 40
    &&& packet[0] == 0x45
    &&& wire::be16(packet[2], packet[3]) == packet.len()
    &&& wire::be16(packet[6], packet[7]) % 0x4000 == 0
    &&& packet[9] == 6
    &&& 20 <= (packet[32] / 16) * 4 <= packet.len() - 20
}

/// Whether a packet is a whole TCP segment behind a plain IPv6 header.
pub open spec fn is_plain_tcp6(packet: Seq<u8>) -> bool {
    &&& packet.len() >= 60
    &&& packet[0] / 16 == 6
    &&& wire::be16(packet[4], packet[5]) == packet.len() - 40
    &&& packet[6] == 6
    &&& 20 <= (packet[52] / 16) * 4 <= packet.len() - 40
}

/// Whether a packet is an ICMP message behind a plain IPv4 header, and no
/// timestamp.
pub open spec fn is_plain_control4(packet: Seq<u8>) -> bool {
    &&& packet.len() >= 28
    &&& packet[0] == 0x45
    &&& wire::be16(packet[2], packet[3]) == packet.len()
    &&& wire::be16(packet[6], packet[7]) % 0x4000 == 0
    &&& packet[9] == 1
    &&& packet[20] != 13 && packet[20] != 14
}

/// Whether a packet is an ICMPv6 message behind a plain IPv6 header.
pub open spec fn is_plain_control6(packet: Seq<u8>) -> bool {
    &&& packet.len() >= 48
    &&& packet[0] / 16 == 6
    &&& wire::be16(packet[4], packet[5]) == packet.len() - 40
    &&& packet[6] == 58
}

/// Whether a packet is one of these over IPv4.
pub open spec fn is_plain4(packet: Seq<u8>) -> bool {
    is_plain_udp4(packet) || is_plain_tcp4(packet) || is_plain_control4(packet)
}

/// Whether a packet is one of these over IPv6.
pub open spec fn is_plain6(packet: Seq<u8>) -> bool {
    is_plain_udp6(packet) || is_plain_tcp6(packet) || is_plain_control6(packet)
}

/// Whether a packet is one fragment of an IPv4 packet, with a whole header, at
/// least as many bytes as it says, and no authentication header.
pub open spec fn is_fragment4(packet: Seq<u8>) -> bool {
    &&& packet.len() >= 20
    &&& packet[0] / 16 == 4
    &&& 20 <= (packet[0] % 16) * 4 <= wire::be16(packet[2], packet[3]) <= packet.len()
    &&& wire::be16(packet[6], packet[7]) % 0x4000 != 0
    &&& packet[9] != 51
}

/// Whether a packet is one fragment of an IPv6 packet, its Fragment header behind
/// the first and with no other extension behind that, and at least as many bytes
/// as it says.
pub open spec fn is_fragment6(packet: Seq<u8>) -> bool {
    &&& packet.len() >= 48
    &&& packet[0] / 16 == 6
    &&& 8 <= wire::be16(packet[4], packet[5]) <= packet.len() - 40
    &&& packet[6] == 44
    &&& packet[40] != 0 && packet[40] != 43 && packet[40] != 44 && packet[40] != 51 && packet[40] != 60
    &&& wire::be16(packet[42], packet[43]) / 8 != 0 || packet[43] % 2 == 1
}

/// The network layer that `etherparse::SlicedPacket::from_ip` finds.
///
/// The fields are those bytes of the header that carry them. Which packets are
/// refused, and which IPv6 packets are fragments, is what the slicing says. It
/// finds IPv4 or IPv6, or refuses. A UDP datagram, a TCP segment or an ICMP
/// message that is whole behind a plain header is not refused, nor is a fragment,
/// whatever it carries.
#[verifier::external_body]
pub(crate) fn slice_net(packet: &[u8]) -> (r: Result<Net, String>)
    ensures
        r is Ok == sliced_ip(packet@) is Ok,
        r is Ok ==> r->Ok_0 == sliced_ip(packet@)->Ok_0.0 && net_reads_header(packet@, r->Ok_0),
        r is Err ==> r->Err_0@ == sliced_ip(packet@)->Err_0,
        r is Ok ==> r->Ok_0 is V4 || r->Ok_0 is V6,
        is_plain4(packet@) || is_fragment4(packet@) ==> r is Ok && r->Ok_0 is V4,
        is_plain6(packet@) || is_fragment6(packet@) ==> r is Ok && r->Ok_0 is V6,
        is_fragment6(packet@) ==> r is Ok && net_fragmented(r->Ok_0),
{
    Ok(match SlicedPacket::from_ip(packet).map_err(|e| e.to_string())?.net {
        Some(Ipv4(ip)) => {
            let h = ip.header();
            Net::V4 { source: h.source(), destination: h.destination(), ecn: h.ecn().value(),
                fragmented: ip.payload().fragmented, payload_len: ip.payload().payload.len() }
        }
        Some(Ipv6(ip)) => {
            let h = ip.header();
            Net::V6 { source: h.source(), destination: h.destination(), ecn: h.ecn().value(),
                fragmented: ip.payload().fragmented, payload_len: ip.payload().payload.len() }
        }
        Some(Arp(_)) => Net::Arp,
        None => Net::Missing,
    })
}

/// The transport layer that `etherparse::SlicedPacket::from_ip` finds; nothing
/// where it refuses the packet, or finds none that this library reads.
///
/// The ports, the ICMP type and the payload's length are those that the header
/// itself carries.
#[verifier::external_body]
fn slice_carried(packet: &[u8]) -> (c: Carried)
    ensures
        sliced_ip(packet@) matches Ok(layers) ==> c == layers.1 && carried_reads_header(
            packet@,
            layers.0,
            c,
        ),
        is_plain_udp4(packet@) || is_plain_udp6(packet@) ==> c is Udp,
        is_plain_tcp4(packet@) || is_plain_tcp6(packet@) ==> c is Tcp,
        is_plain_control4(packet@) ==> c is Control4,
        is_plain_control6(packet@) ==> c is Control6,
{
    match SlicedPacket::from_ip(packet).ok().and_then(|s| s.transport) {
        Some(TransportSlice::Tcp(t)) => Carried::Tcp {
            source_port: t.source_port(), destination_port: t.destination_port(), payload_len: t.payload().len(),
        },
        Some(TransportSlice::Udp(t)) => Carried::Udp {
            source_port: t.source_port(), destination_port: t.destination_port(), payload_len: t.payload().len(),
        },
        Some(TransportSlice::Icmpv4(t)) =>
            Carried::Control4 { kind: t.type_u8(), payload_len: t.payload().len() },
        Some(TransportSlice::Icmpv6(t)) =>
            Carried::Control6 { kind: t.type_u8(), payload_len: t.payload().len() },
        Some(TransportSlice::Igmp(_)) | None => Carried::Other,
    }
}

/// A packet's addresses, congestion mark and transport, and where in the packet
/// the transport's payload lies.
#[derive(Clone, Copy, Debug, PartialEq, Eq, Structural)]
pub struct IngressPacket {
    pub source: IpAddr,
    pub destination: IpAddr,
    pub ecn: IpEcn,
    pub transport: Transport,
    /// The payload's location in the original packet. Storing coordinates
    /// keeps this `Copy` summary independent of the input borrow.
    pub payload_at: u16,
    pub payload_len: u16,
}

#[derive(Clone, Debug, PartialEq, Eq)]
pub enum PacketError {
    /// The slicing refused the packet, with this text.
    Malformed(String),
    MissingNetworkLayer,
    UnsupportedNetworkLayer,
    /// A wire length or payload offset cannot be represented exactly in the
    /// summary type.
    Oversized,
}

impl PacketError {
    /// The text of this error.
    pub open spec fn text(self) -> Seq<char> {
        match self {
            PacketError::Malformed(error) => "malformed packet: "@ + error@,
            PacketError::MissingNetworkLayer => "packet has no network layer"@,
            PacketError::UnsupportedNetworkLayer => "unsupported network layer"@,
            PacketError::Oversized => "packet exceeds what an IP header can describe"@,
        }
    }

    /// Renders this error for a reader.
    pub fn message(&self) -> (s: String)
        ensures
            s@ == self.text(),
    {
        match self {
            PacketError::Malformed(error) => {
                let mut s = String::from_str("malformed packet: ");
                push_text(&mut s, error.as_str());
                s
            },
            PacketError::MissingNetworkLayer => String::from_str("packet has no network layer"),
            PacketError::UnsupportedNetworkLayer => String::from_str("unsupported network layer"),
            PacketError::Oversized => String::from_str("packet exceeds what an IP header can describe"),
        }
    }
}

/// A size that fits 16 bits.
fn short(n: usize) -> (r: Option<u16>)
    ensures
        match r {
            Some(v) => v == n,
            None => n > u16::MAX,
        },
{
    if n <= 65535 {
        Some(n as u16)
    } else {
        None
    }
}

/// The transport that a sliced layer stands for.
pub open spec fn transport_of(carried: Carried) -> Transport {
    match carried {
        Carried::Tcp { source_port, destination_port, .. } => Transport::Tcp { source_port, destination_port },
        Carried::Udp { source_port, destination_port, .. } => Transport::Udp { source_port, destination_port },
        Carried::Control4 { kind, .. } => Transport::Icmp(
            if is_icmpv4_error(kind) {
                IcmpClass::Error
            } else {
                IcmpClass::Informational
            },
        ),
        Carried::Control6 { kind, .. } => Transport::Icmp(
            if kind < 128 {
                IcmpClass::Error
            } else {
                IcmpClass::Informational
            },
        ),
        Carried::Other => Transport::Other,
    }
}

/// Where a sliced layer's payload lies in a packet whose IP payload is the
/// `ip_len` bytes before `end`: offset and length.
///
/// UDP's own length may stop short of the IP payload, so its payload is found
/// from the front; the others reach to the end.
pub open spec fn payload_span(carried: Carried, end: int, ip_len: int) -> (int, int) {
    match carried {
        Carried::Tcp { payload_len, .. } => (end - payload_len, payload_len as int),
        Carried::Udp { payload_len, .. } => (end - ip_len + 8, payload_len as int),
        Carried::Control4 { payload_len, .. } => (end - payload_len, payload_len as int),
        Carried::Control6 { payload_len, .. } => (end - payload_len, payload_len as int),
        Carried::Other => (0, 0),
    }
}

/// Whether a sliced layer's payload lies inside the IP payload.
pub open spec fn payload_fits(carried: Carried, ip_len: int) -> bool {
    match carried {
        Carried::Tcp { payload_len, .. } => payload_len <= ip_len,
        Carried::Udp { payload_len, .. } => 8 + payload_len <= ip_len,
        Carried::Control4 { payload_len, .. } => payload_len <= ip_len,
        Carried::Control6 { payload_len, .. } => payload_len <= ip_len,
        Carried::Other => true,
    }
}

/// The octets of a sliced network layer's source.
pub open spec fn net_source(net: Net) -> Seq<u8> {
    match net {
        Net::V4 { source, .. } => source@,
        Net::V6 { source, .. } => source@,
        _ => Seq::empty(),
    }
}

/// The octets of a sliced network layer's destination.
pub open spec fn net_destination(net: Net) -> Seq<u8> {
    match net {
        Net::V4 { destination, .. } => destination@,
        Net::V6 { destination, .. } => destination@,
        _ => Seq::empty(),
    }
}

/// The congestion bits of a sliced network layer.
pub open spec fn net_ecn(net: Net) -> u8 {
    match net {
        Net::V4 { ecn, .. } => ecn,
        Net::V6 { ecn, .. } => ecn,
        _ => 0,
    }
}

/// Whether a sliced network layer is one fragment of a packet.
pub open spec fn net_fragmented(net: Net) -> bool {
    match net {
        Net::V4 { fragmented, .. } => fragmented,
        Net::V6 { fragmented, .. } => fragmented,
        _ => false,
    }
}

/// Whether `r` summarises the two layers of a packet whose IP payload ends at
/// `end`.
pub open spec fn is_summary_of(r: Result<IngressPacket, PacketError>, net: Net, carried: Carried, end: int) -> bool {
    match net {
        Net::Missing => r matches Err(e) && e is MissingNetworkLayer,
        Net::Arp => r matches Err(e) && e is UnsupportedNetworkLayer,
        _ => {
            let span = if net_fragmented(net) {
                (0, 0)
            } else {
                payload_span(carried, end, ip_payload_len(net))
            };
            if span.0 > u16::MAX || span.1 > u16::MAX {
                r matches Err(e) && e is Oversized
            } else {
                &&& r matches Ok(p)
                &&& p.source is V4 == net is V4
                &&& p.destination is V4 == net is V4
                &&& p.source.bytes() == net_source(net)
                &&& p.destination.bytes() == net_destination(net)
                &&& p.ecn == IpEcn::of(net_ecn(net))
                &&& p.transport == (if net_fragmented(net) {
                    Transport::Fragment
                } else {
                    transport_of(carried)
                })
                &&& p.payload_at == span.0
                &&& p.payload_len == span.1
            }
        },
    }
}

/// Whether `r` is what parsing a packet gives.
pub open spec fn is_parse_of(r: Result<IngressPacket, PacketError>, packet: Seq<u8>) -> bool {
    match sliced_ip(packet) {
        Err(text) => r matches Err(PacketError::Malformed(e)) && e@ == text,
        Ok(layers) => is_summary_of(r, layers.0, layers.1, ip_end(packet)),
    }
}

impl IngressPacket {
    /// Borrows the transport payload from the packet used for parsing.
    /// Returns `None` when the coordinates are outside the supplied bytes.
    pub fn payload<'a>(&self, packet: &'a [u8]) -> (r: Option<&'a [u8]>)
        ensures
            match r {
                Some(bytes) => self.payload_at + self.payload_len <= packet@.len() && bytes@ == packet@.subrange(
                    self.payload_at as int,
                    self.payload_at + self.payload_len,
                ),
                None => self.payload_at + self.payload_len > packet@.len(),
            },
    {
        let at: usize = self.payload_at as usize;
        let end: usize = at + self.payload_len as usize;
        if end <= packet.len() {
            Some(slice_subrange(packet, at, end))
        } else {
            None
        }
    }

    /// Summarises a packet from its sliced layers. `end` is where its IP
    /// payload ends.
    pub fn from_layers(net: Net, carried: Carried, end: usize) -> (r: Result<Self, PacketError>)
        requires
            ip_payload_len(net) <= end,
            (net is V4 || net is V6) && !net_fragmented(net) ==> payload_fits(carried, ip_payload_len(net)),
        ensures
            is_summary_of(r, net, carried, end + 0),
    {
        let (source, destination, bits, fragmented, ip_len): (IpAddr, IpAddr, u8, bool, usize) = match net {
            Net::V4 { source, destination, ecn, fragmented, payload_len } => (
                IpAddr::V4(Ipv4Addr::from_octets(source)),
                IpAddr::V4(Ipv4Addr::from_octets(destination)),
                ecn,
                fragmented,
                payload_len,
            ),
            Net::V6 { source, destination, ecn, fragmented, payload_len } => (
                IpAddr::V6(Ipv6Addr::from_octets(source)),
                IpAddr::V6(Ipv6Addr::from_octets(destination)),
                ecn,
                fragmented,
                payload_len,
            ),
            Net::Arp => return Err(PacketError::UnsupportedNetworkLayer),
            Net::Missing => return Err(PacketError::MissingNetworkLayer),
        };
        let (transport, at, len): (Transport, usize, usize) = if fragmented {
            (Transport::Fragment, 0, 0)
        } else {
            match carried {
                Carried::Tcp { source_port, destination_port, payload_len } => (
                    Transport::Tcp { source_port, destination_port },
                    end - payload_len,
                    payload_len,
                ),
                Carried::Udp { source_port, destination_port, payload_len } => (
                    Transport::Udp { source_port, destination_port },
                    end - ip_len + 8,
                    payload_len,
                ),
                Carried::Control4 { kind, payload_len } => (
                    Transport::Icmp(icmpv4_class(kind)),
                    end - payload_len,
                    payload_len,
                ),
                Carried::Control6 { kind, payload_len } => (
                    Transport::Icmp(icmpv6_class(kind)),
                    end - payload_len,
                    payload_len,
                ),
                Carried::Other => (Transport::Other, 0, 0),
            }
        };
        match (short(at), short(len)) {
            (Some(payload_at), Some(payload_len)) => Ok(
                IngressPacket {
                    source,
                    destination,
                    ecn: IpEcn::from_bits(bits),
                    transport,
                    payload_at,
                    payload_len,
                },
            ),
            _ => Err(PacketError::Oversized),
        }
    }

    /// Parses a packet.
    pub fn parse(packet: &[u8]) -> (r: Result<Self, PacketError>)
        ensures
            is_parse_of(r, packet@),
            r matches Ok(p) ==> p.source is V4 == p.destination is V4,
            r matches Ok(p) ==> p.payload_at + p.payload_len <= packet@.len(),
            sliced_ip(packet@) matches Ok(layers) ==> net_reads_header(packet@, layers.0)
                && carried_reads_header(packet@, layers.0, layers.1) && (layers.0 is V4 || layers.0 is V6),
            is_plain4(packet@) || is_plain6(packet@) ==> is_plain_summary(r, packet@),
            is_fragment4(packet@) || is_fragment6(packet@) ==> r is Ok && r->Ok_0.transport == Transport::Fragment && has_addresses(
                r->Ok_0,
                packet@,
            ),
    {
        let net = match slice_net(packet) {
            Ok(net) => net,
            Err(e) => return Err(PacketError::Malformed(e)),
        };
        let carried = slice_carried(packet);
        let end: usize = match net {
            Net::V4 { .. } => packet[2] as usize * 256 + packet[3] as usize,
            Net::V6 { .. } => {
                let len: usize = packet[4] as usize * 256 + packet[5] as usize;
                if len == 0 && packet.len() > 40 {
                    packet.len()
                } else {
                    40 + len
                }
            },
            Net::Arp | Net::Missing => 0,
        };
        IngressPacket::from_layers(net, carried, end)
    }
}

/// Whether a summary holds the addresses and the congestion mark that a
/// packet's header holds.
pub open spec fn has_addresses(p: IngressPacket, packet: Seq<u8>) -> bool {
    if packet[0] / 16 == 4 {
        &&& p.source is V4 && p.destination is V4
        &&& p.source.bytes() == packet.subrange(12, 16)
        &&& p.destination.bytes() == packet.subrange(16, 20)
        &&& p.ecn == IpEcn::of(packet[1] % 4)
    } else {
        &&& p.source is V6 && p.destination is V6
        &&& p.source.bytes() == packet.subrange(8, 24)
        &&& p.destination.bytes() == packet.subrange(24, 40)
        &&& p.ecn == IpEcn::of((packet[1] / 16) % 4)
    }
}

/// Whether a summary of a plain packet says what its headers say: its
/// addresses, its mark, its ports or its class, and the bytes behind the headers
/// as payload.
pub open spec fn is_plain_summary(r: Result<IngressPacket, PacketError>, packet: Seq<u8>) -> bool {
    let at: int = if packet[0] / 16 == 4 {
        20
    } else {
        40
    };
    let protocol: u8 = if at == 20 {
        packet[9]
    } else {
        packet[6]
    };
    &&& r matches Ok(p)
    &&& has_addresses(p, packet)
    &&& if protocol == 17 {
        &&& p.transport matches Transport::Udp { source_port, destination_port }
        &&& source_port == wire::be16(packet[at], packet[at + 1])
        &&& destination_port == wire::be16(packet[at + 2], packet[at + 3])
        &&& p.payload_at == at + 8
        &&& p.payload_len == packet.len() - at - 8
    } else if protocol == 6 {
        &&& p.transport matches Transport::Tcp { source_port, destination_port }
        &&& source_port == wire::be16(packet[at], packet[at + 1])
        &&& destination_port == wire::be16(packet[at + 2], packet[at + 3])
        &&& p.payload_at == at + (packet[at + 12] / 16) * 4
        &&& p.payload_len == packet.len() - p.payload_at
    } else {
        let class = if (if at == 20 {
            is_icmpv4_error(packet[at])
        } else {
            packet[at] < 128
        }) {
            IcmpClass::Error
        } else {
            IcmpClass::Informational
        };
        p.transport == Transport::Icmp(class)
    }
}

/// RFC 1122's five ICMPv4 errors, and the lower half of ICMPv6's types, are errors;
/// nothing else is, so that an echo request and its reply are none.
pub proof fn an_error_is_known_by_its_type(kind: u8, four: IcmpClass, six: IcmpClass)
    requires
        call_ensures(icmpv4_class, (kind,), four),
        call_ensures(icmpv6_class, (kind,), six),
    ensures
        four == IcmpClass::Error <==> kind == 3 || kind == 4 || kind == 5 || kind == 11 || kind == 12,
        six == IcmpClass::Error <==> kind <= 127,
        kind == 0 || kind == 8 ==> four == IcmpClass::Informational,
        kind == 128 || kind == 129 ==> six == IcmpClass::Informational,
{
}

/// A packet reads as its bytes say. Over IPv4 the addresses are the last eight bytes
/// of the fixed header and the congestion mark the last two bits of its second byte;
/// over IPv6 the addresses are its last 32 bytes. UDP and TCP give their ports in
/// their first four bytes, and everything behind their headers is payload.
pub proof fn a_packet_reads_as_its_bytes_say(packet: &[u8], r: Result<IngressPacket, PacketError>)
    requires
        call_ensures(IngressPacket::parse, (packet,), r),
    ensures
        is_plain4(packet@) ==> r is Ok && {
            let p = r->Ok_0;
            &&& p.source is V4 && p.source.bytes() == packet@.subrange(12, 16)
            &&& p.destination is V4 && p.destination.bytes() == packet@.subrange(16, 20)
            &&& packet@[1] % 4 == 0 ==> p.ecn == IpEcn::NotEct
            &&& packet@[1] % 4 == 1 ==> p.ecn == IpEcn::Ect1
            &&& packet@[1] % 4 == 2 ==> p.ecn == IpEcn::Ect0
            &&& packet@[1] % 4 == 3 ==> p.ecn == IpEcn::CongestionExperienced
        },
        is_plain6(packet@) ==> r is Ok && {
            let p = r->Ok_0;
            &&& p.source is V6 && p.source.bytes() == packet@.subrange(8, 24)
            &&& p.destination is V6 && p.destination.bytes() == packet@.subrange(24, 40)
            &&& packet@[1] % 64 < 16 ==> p.ecn == IpEcn::NotEct
            &&& 16 <= packet@[1] % 64 < 32 ==> p.ecn == IpEcn::Ect1
            &&& 32 <= packet@[1] % 64 < 48 ==> p.ecn == IpEcn::Ect0
            &&& 48 <= packet@[1] % 64 ==> p.ecn == IpEcn::CongestionExperienced
        },
        is_plain_udp4(packet@) ==> r is Ok && (r->Ok_0.transport matches Transport::Udp { source_port, destination_port }
            && source_port == packet@[20] * 256 + packet@[21] && destination_port == packet@[22] * 256 + packet@[23])
            && r->Ok_0.payload_at == 28 && r->Ok_0.payload_len == packet@.len() - 28,
        is_plain_udp6(packet@) && packet@.len() <= 65535 ==> r is Ok && (r->Ok_0.transport matches Transport::Udp {
            source_port,
            destination_port,
        } && source_port == packet@[40] * 256 + packet@[41] && destination_port == packet@[42] * 256 + packet@[43])
            && r->Ok_0.payload_at == 48 && r->Ok_0.payload_len == packet@.len() - 48,
        is_plain_tcp4(packet@) ==> r is Ok && (r->Ok_0.transport matches Transport::Tcp { source_port, destination_port }
            && source_port == packet@[20] * 256 + packet@[21] && destination_port == packet@[22] * 256 + packet@[23])
            && r->Ok_0.payload_at == 20 + (packet@[32] / 16) * 4 && r->Ok_0.payload_at + r->Ok_0.payload_len
            == packet@.len(),
        is_plain_tcp6(packet@) && packet@.len() <= 65535 ==> r is Ok && (r->Ok_0.transport matches Transport::Tcp {
            source_port,
            destination_port,
        } && source_port == packet@[40] * 256 + packet@[41] && destination_port == packet@[42] * 256 + packet@[43])
            && r->Ok_0.payload_at == 40 + (packet@[52] / 16) * 4 && r->Ok_0.payload_at + r->Ok_0.payload_len
            == packet@.len(),
        is_plain_control4(packet@) ==> r is Ok && r->Ok_0.transport == Transport::Icmp(
            if packet@[20] == 3 || packet@[20] == 4 || packet@[20] == 5 || packet@[20] == 11 || packet@[20] == 12 {
                IcmpClass::Error
            } else {
                IcmpClass::Informational
            },
        ),
        is_plain_control6(packet@) && packet@.len() <= 65535 ==> r is Ok && r->Ok_0.transport == Transport::Icmp(
            if packet@[40] <= 127 {
                IcmpClass::Error
            } else {
                IcmpClass::Informational
            },
        ),
        is_fragment4(packet@) || is_fragment6(packet@) ==> r is Ok && r->Ok_0.transport == Transport::Fragment,
{
}

/// A payload is the bytes at its place, whole or not at all.
pub proof fn a_payload_is_the_bytes_at_its_place(p: &IngressPacket, packet: &[u8], r: Option<&[u8]>)
    requires
        call_ensures(IngressPacket::payload, (p, packet), r),
    ensures
        r is Some <==> p.payload_at + p.payload_len <= packet@.len(),
        r is Some ==> r->0@.len() == p.payload_len && forall|i: int|
            0 <= i < p.payload_len ==> #[trigger] r->0@[i] == packet@[p.payload_at + i],
{
}

/// The same of any packet that slices and is no fragment, whatever options or extensions
/// stand before its transport: TCP and ICMP payloads reach to the end that the IP header
/// gives, and UDP's starts eight bytes into the IP payload.
pub proof fn a_payload_lies_where_the_headers_say(packet: &[u8], r: Result<IngressPacket, PacketError>)
    requires
        call_ensures(IngressPacket::parse, (packet,), r),
        r is Ok,
        sliced_ip(packet@) is Ok,
        !net_fragmented(sliced_ip(packet@)->Ok_0.0),
    ensures
        ({
            let p = r->Ok_0;
            let (net, carried) = sliced_ip(packet@)->Ok_0;
            let end: int = if packet@[0] / 16 == 4 {
                packet@[2] * 256 + packet@[3]
            } else if packet@[4] == 0 && packet@[5] == 0 && packet@.len() > 40 {
                0int + packet@.len()
            } else {
                40 + packet@[4] * 256 + packet@[5]
            };
            let at = end - ip_payload_len(net);
            &&& carried is Tcp ==> p.payload_at + p.payload_len == end && p.payload_at == at + (packet@[at + 12] / 16) * 4
                && (p.transport matches Transport::Tcp { source_port, destination_port } && source_port == packet@[at] * 256
                + packet@[at + 1] && destination_port == packet@[at + 2] * 256 + packet@[at + 3])
            &&& carried is Udp ==> p.payload_at == at + 8 && (p.transport matches Transport::Udp { source_port, destination_port }
                && source_port == packet@[at] * 256 + packet@[at + 1] && destination_port == packet@[at + 2] * 256
                + packet@[at + 3])
            &&& carried is Control4 || carried is Control6 ==> p.payload_at + p.payload_len == end && p.transport is Icmp
            &&& carried is Other ==> p.transport == Transport::Other && p.payload_len == 0
        }),
{
}

} // verus!
