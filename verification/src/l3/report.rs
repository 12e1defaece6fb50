//! The ICMP errors this hop generates for a packet it cannot pass on.

use vstd::prelude::*;
use vstd::slice::slice_subrange;
#[allow(unused_imports)]
use crate::l3::packet;
#[allow(unused_imports)]
use crate::l3::emit;
#[allow(unused_imports)]
use crate::wire;

#[allow(unused_imports)]
use crate::addr;
use crate::addr::IpAddr;
use crate::l3::packet::IngressPacket;
#[allow(unused_imports)]
use crate::l3::packet::{IcmpClass, Transport};
use crate::l3::emit::put;
use crate::l3::emit::WriteError;

verus! {

/// Upper bound of an ICMPv4 error (RFC 1812).
pub const MAX_ICMPV4_ERROR: usize = 576;

/// Upper bound of an ICMPv6 error: the minimum MTU (RFC 4443).
pub const MAX_ICMPV6_ERROR: usize = 1280;

/// Bytes of an IPv4 header and an ICMP error header.
pub const ICMPV4_HEADERS: usize = 28;

/// Bytes of an IPv6 header and an ICMPv6 error header.
pub const ICMPV6_HEADERS: usize = 48;

/// Hop limit of a locally generated error.
pub const ICMP_TTL: u8 = 64;

/// The ICMP errors this hop generates.
#[derive(Clone, Copy, Debug, PartialEq, Eq, Structural)]
pub enum IcmpError {
    TooBig { next_hop_mtu: u16 },
    TimeExceeded,
}

/// The error packet that etherparse's packet builder makes over IPv4.
pub uninterp spec fn built_report4(source: Seq<u8>, destination: Seq<u8>, hops: u8, error: IcmpError, quote: Seq<u8>) -> Seq<u8>;

/// The error packet that etherparse's packet builder makes over IPv6.
pub uninterp spec fn built_report6(source: Seq<u8>, destination: Seq<u8>, hops: u8, error: IcmpError, quote: Seq<u8>) -> Seq<u8>;

/// An ICMP error over IPv4: a plain header that adds up, the error's type and
/// code, the next hop's MTU where there is one, and the quote behind them,
/// the whole message adding up.
pub open spec fn reads_as_report4(m: Seq<u8>, source: Seq<u8>, destination: Seq<u8>, hops: u8, error: IcmpError, quote: Seq<u8>) -> bool {
    &&& m.len() == 28 + quote.len()
    &&& m[0] == 0x45
    &&& wire::be16(m[2], m[3]) == m.len()
    &&& wire::be16(m[6], m[7]) % 0x4000 == 0
    &&& m[8] == hops
    &&& m[9] == 1
    &&& m.subrange(12, 16) == source
    &&& m.subrange(16, 20) == destination
    &&& wire::adds_up(m.take(20))
    &&& wire::adds_up(m.skip(20))
    &&& m[24] == 0 && m[25] == 0
    &&& match error {
        IcmpError::TooBig { next_hop_mtu } => m[20] == 3 && m[21] == 4 && wire::be16(m[26], m[27]) == next_hop_mtu,
        IcmpError::TimeExceeded => m[20] == 11 && m[21] == 0 && m[26] == 0 && m[27] == 0,
    }
    &&& m.skip(28) == quote
}

/// What an ICMPv6 checksum covers besides the message of `len` bytes.
pub open spec fn control_pseudo6(source: Seq<u8>, destination: Seq<u8>, high: u8, low: u8) -> Seq<u8> {
    source + destination + seq![0u8, 0, high, low, 0, 0, 0, 58]
}

/// An ICMPv6 error: the header's lengths and addresses, the error's type and
/// code, the next hop's MTU where there is one, and the quote behind them, the
/// message adding up with what it is checked against.
pub open spec fn reads_as_report6(m: Seq<u8>, source: Seq<u8>, destination: Seq<u8>, hops: u8, error: IcmpError, quote: Seq<u8>) -> bool {
    &&& m.len() == 48 + quote.len()
    &&& m[0] == 0x60
    &&& wire::be16(m[4], m[5]) == m.len() - 40
    &&& m[6] == 58
    &&& m[7] == hops
    &&& m.subrange(8, 24) == source
    &&& m.subrange(24, 40) == destination
    &&& wire::adds_up(control_pseudo6(source, destination, m[4], m[5]) + m.skip(40))
    &&& m[41] == 0 && m[44] == 0 && m[45] == 0
    &&& match error {
        IcmpError::TooBig { next_hop_mtu } => m[40] == 2 && wire::be16(m[46], m[47]) == next_hop_mtu,
        IcmpError::TimeExceeded => m[40] == 3 && m[46] == 0 && m[47] == 0,
    }
    &&& m.skip(48) == quote
}

/// `etherparse::PacketBuilder`, through `ipv4`, `icmpv4` and `write_to_vec`:
/// an ICMP error in an IPv4 packet, with its lengths and checksums filled in.
#[verifier::external_body]
fn build_report4(source: [u8; 4], destination: [u8; 4], hops: u8, error: IcmpError, quote: &[u8]) -> (m: Vec<u8>)
    requires
        quote@.len() <= 65507,
    ensures
        m@ == built_report4(source@, destination@, hops, error, quote@),
        reads_as_report4(m@, source@, destination@, hops, error, quote@),
{
    let kind = match error {
        IcmpError::TooBig { next_hop_mtu } => etherparse::Icmpv4Type::DestinationUnreachable(
            etherparse::icmpv4::DestUnreachableHeader::FragmentationNeeded { next_hop_mtu }),
        IcmpError::TimeExceeded => etherparse::Icmpv4Type::TimeExceeded(
            etherparse::icmpv4::TimeExceededCode::TtlExceededInTransit),
    };
    let mut m = Vec::new();
    let _ = etherparse::PacketBuilder::ipv4(source, destination, hops).icmpv4(kind).write_to_vec(&mut m, quote);
    m
}

/// `etherparse::PacketBuilder`, through `ipv6`, `icmpv6` and `write_to_vec`:
/// an ICMPv6 error in an IPv6 packet, with its lengths and checksum filled in.
#[verifier::external_body]
fn build_report6(source: [u8; 16], destination: [u8; 16], hops: u8, error: IcmpError, quote: &[u8]) -> (m: Vec<u8>)
    requires
        quote@.len() <= 65507,
    ensures
        m@ == built_report6(source@, destination@, hops, error, quote@),
        reads_as_report6(m@, source@, destination@, hops, error, quote@),
{
    let kind = match error {
        IcmpError::TooBig { next_hop_mtu } => etherparse::Icmpv6Type::PacketTooBig { mtu: u32::from(next_hop_mtu) },
        IcmpError::TimeExceeded => etherparse::Icmpv6Type::TimeExceeded(
            etherparse::icmpv6::TimeExceededCode::HopLimitExceeded),
    };
    let mut m = Vec::new();
    let _ = etherparse::PacketBuilder::ipv6(source, destination, hops).icmpv6(kind).write_to_vec(&mut m, quote);
    m
}

/// As much of a packet's front as an error may quote.
pub open spec fn quoted_part(quoted: Seq<u8>, limit: int) -> Seq<u8> {
    if quoted.len() <= limit {
        quoted
    } else {
        quoted.take(limit)
    }
}

/// The error that answers a packet of these addresses: it goes back to the
/// source, in the name of the destination, with as much of the packet as keeps
/// it within the family's bound.
pub open spec fn report_for(source: IpAddr, destination: IpAddr, error: IcmpError, quoted: Seq<u8>) -> Result<Seq<u8>, WriteError> {
    match (destination, source) {
        (IpAddr::V4(from), IpAddr::V4(to)) => Ok(
            built_report4(
                from.bytes(),
                to.bytes(),
                ICMP_TTL,
                error,
                quoted_part(quoted, MAX_ICMPV4_ERROR - ICMPV4_HEADERS),
            ),
        ),
        (IpAddr::V6(from), IpAddr::V6(to)) => Ok(
            built_report6(
                from.bytes(),
                to.bytes(),
                ICMP_TTL,
                error,
                quoted_part(quoted, MAX_ICMPV6_ERROR - ICMPV6_HEADERS),
            ),
        ),
        _ => Err(WriteError::MixedFamilies),
    }
}

/// Whether a message is the error that answers a packet of these addresses,
/// read field by field.
pub open spec fn reads_as_report(m: Seq<u8>, source: IpAddr, destination: IpAddr, error: IcmpError, quoted: Seq<u8>) -> bool {
    match (destination, source) {
        (IpAddr::V4(from), IpAddr::V4(to)) => reads_as_report4(
            m,
            from.bytes(),
            to.bytes(),
            ICMP_TTL,
            error,
            quoted_part(quoted, MAX_ICMPV4_ERROR - ICMPV4_HEADERS),
        ),
        (IpAddr::V6(from), IpAddr::V6(to)) => reads_as_report6(
            m,
            from.bytes(),
            to.bytes(),
            ICMP_TTL,
            error,
            quoted_part(quoted, MAX_ICMPV6_ERROR - ICMPV6_HEADERS),
        ),
        _ => false,
    }
}

fn quote_of(quoted: &[u8], limit: usize) -> (q: &[u8])
    ensures
        q@ == quoted_part(quoted@, limit + 0),
        q@.len() <= limit,
{
    if quoted.len() <= limit {
        quoted
    } else {
        let q = slice_subrange(quoted, 0, limit);
        assert(q@ =~= quoted@.take(limit + 0));
        q
    }
}

/// Writes the error that answers a packet of these addresses.
pub fn write_report(out: &mut [u8], source: IpAddr, destination: IpAddr, error: IcmpError, quoted: &[u8]) -> (r: Result<usize, WriteError>)
    ensures
        emit::is_written(report_for(source, destination, error, quoted@), old(out)@, final(out)@, r),
        report_for(source, destination, error, quoted@) matches Ok(m) ==> reads_as_report(
            m,
            source,
            destination,
            error,
            quoted@,
        ),
        r matches Ok(n) ==> n <= MAX_ICMPV6_ERROR && n <= final(out)@.len() && reads_as_report(
            final(out)@.take(n + 0),
            source,
            destination,
            error,
            quoted@,
        ),
{
    let message: Vec<u8> = match (destination, source) {
        (IpAddr::V4(from), IpAddr::V4(to)) => build_report4(
            from.octets(),
            to.octets(),
            ICMP_TTL,
            error,
            quote_of(quoted, MAX_ICMPV4_ERROR - ICMPV4_HEADERS),
        ),
        (IpAddr::V6(from), IpAddr::V6(to)) => build_report6(
            from.octets(),
            to.octets(),
            ICMP_TTL,
            error,
            quote_of(quoted, MAX_ICMPV6_ERROR - ICMPV6_HEADERS),
        ),
        _ => return Err(WriteError::MixedFamilies),
    };
    if message.len() > out.len() {
        return Err(WriteError::OutputTooSmall);
    }
    put(out, 0, message.as_slice());
    proof {
        let n: int = 0int + message@.len();
        assert(old(out)@.take(0) =~= Seq::<u8>::empty());
        assert(out@ =~= message@ + old(out)@.skip(n));
        assert(out@.take(n) =~= message@);
    }
    Ok(message.len())
}

/// How long a report on a packet is: the headers, and as much of the packet as
/// keeps it within the family's bound.
pub open spec fn report_len(source: IpAddr, quoted: Seq<u8>) -> int {
    match source {
        IpAddr::V4(_) => ICMPV4_HEADERS + quoted_part(quoted, MAX_ICMPV4_ERROR - ICMPV4_HEADERS).len(),
        IpAddr::V6(_) => ICMPV6_HEADERS + quoted_part(quoted, MAX_ICMPV6_ERROR - ICMPV6_HEADERS).len(),
    }
}

/// What reporting on a packet gives that parses like this: nothing for bytes
/// that do not.
pub open spec fn is_report_of(parsed: Result<IngressPacket, packet::PacketError>, quoted: Seq<u8>, error: IcmpError, before: Seq<u8>, after: Seq<u8>, r: Result<usize, WriteError>) -> bool {
    match parsed {
        Err(_) => r == Err::<usize, WriteError>(WriteError::Unquotable) && after == before,
        Ok(p) => p.source is V4 == p.destination is V4 && emit::is_written(
            report_for(p.source, p.destination, error, quoted),
            before,
            after,
            r,
        ) && (report_for(p.source, p.destination, error, quoted) matches Ok(m) ==> reads_as_report(
            m,
            p.source,
            p.destination,
            error,
            quoted,
        )) && (
        r matches Ok(n) ==> n <= after.len() && reads_as_report(
            after.take(n + 0),
            p.source,
            p.destination,
            error,
            quoted,
        )),
    }
}

/// What reporting on a packet gives, however parsing it is told.
pub open spec fn is_report_on(quoted: Seq<u8>, error: IcmpError, before: Seq<u8>, after: Seq<u8>, r: Result<usize, WriteError>) -> bool {
    forall|parsed: Result<IngressPacket, packet::PacketError>| #[trigger]
        packet::is_parse_of(parsed, quoted) ==> is_report_of(parsed, quoted, error, before, after, r)
}

/// A report is written exactly if it fits: a packet that parses is answered
/// where the buffer has room for the headers and the quote, and the length is
/// theirs.
pub proof fn a_report_needs_only_room(
    quoted: Seq<u8>,
    error: IcmpError,
    before: Seq<u8>,
    after: Seq<u8>,
    r: Result<usize, WriteError>,
    parsed: Result<IngressPacket, packet::PacketError>,
)
    requires
        is_report_of(parsed, quoted, error, before, after, r),
    ensures
        r == Err::<usize, WriteError>(WriteError::Unquotable) <==> parsed is Err,
        parsed matches Ok(p) ==> ({
            let size = report_len(p.source, quoted);
            if before.len() < size {
                r == Err::<usize, WriteError>(WriteError::OutputTooSmall) && after == before
            } else {
                r matches Ok(n) && n == size && reads_as_report(
                    after.take(size),
                    p.source,
                    p.destination,
                    error,
                    quoted,
                ) && after.skip(size) == before.skip(size)
            }
        }),
{
    if let Ok(p) = parsed {
        let m = report_for(p.source, p.destination, error, quoted)->Ok_0;
        let size: int = report_len(p.source, quoted);
        assert(m.len() == size);
        if before.len() >= size {
            assert(after.take(size) =~= m);
            assert(after.skip(size) =~= before.skip(size));
        }
    }
}

/// Reading a report back gives an ICMP error that goes from the packet's
/// destination to its source.
pub proof fn a_report_is_an_error_to_the_source(
    m: Seq<u8>,
    source: IpAddr,
    destination: IpAddr,
    error: IcmpError,
    quoted: Seq<u8>,
    r: Result<IngressPacket, packet::PacketError>,
)
    requires
        reads_as_report(m, source, destination, error, quoted),
        packet::is_plain4(m) || packet::is_plain6(m) ==> packet::is_plain_summary(r, m),
    ensures
        r matches Ok(p) && p.source == destination && p.destination == source && p.transport
            == Transport::Icmp(IcmpClass::Error),
{
    let p = r->Ok_0;
    addr::lemma_address_is_its_octets(p.source, destination);
    addr::lemma_address_is_its_octets(p.destination, source);
}

fn write_error(out: &mut [u8], quoted: &[u8], error: IcmpError) -> (r: Result<usize, WriteError>)
    ensures
        is_report_on(quoted@, error, old(out)@, final(out)@, r),
{
    let parsed = IngressPacket::parse(quoted);
    let ghost given = parsed;
    assert(packet::is_parse_of(given, quoted@));
    proof {
        assert forall|other: Result<IngressPacket, packet::PacketError>| #[trigger]
            packet::is_parse_of(other, quoted@) implies other is Ok == given is Ok && (other is Ok
            ==> other->Ok_0.source == given->Ok_0.source && other->Ok_0.destination
            == given->Ok_0.destination) by {
            if other is Ok {
                addr::lemma_address_is_its_octets(other->Ok_0.source, given->Ok_0.source);
                addr::lemma_address_is_its_octets(other->Ok_0.destination, given->Ok_0.destination);
            }
        }
    }
    match parsed {
        Ok(p) => write_report(out, p.source, p.destination, error, quoted),
        Err(_) => Err(WriteError::Unquotable),
    }
}

/// Writes an ICMP Packet Too Big message quoting `quoted`.
///
/// A packet can fit the device-facing MTU while exceeding the tunnel's inner
/// path MTU. TCP is constrained earlier by SYN MSS clamping; this error gives
/// datagram transports such as QUIC feedback to reduce their size.
pub fn write_too_big(out: &mut [u8], quoted: &[u8], next_hop_mtu: u16) -> (r: Result<usize, WriteError>)
    ensures
        is_report_on(quoted@, IcmpError::TooBig { next_hop_mtu }, old(out)@, final(out)@, r),
{
    write_error(out, quoted, IcmpError::TooBig { next_hop_mtu })
}

/// Writes an ICMP Time Exceeded message quoting `quoted`, whose hop count
/// ran out here (RFC 792, RFC 4443).
pub fn write_time_exceeded(out: &mut [u8], quoted: &[u8]) -> (r: Result<usize, WriteError>)
    ensures
        is_report_on(quoted@, IcmpError::TimeExceeded, old(out)@, final(out)@, r),
{
    write_error(out, quoted, IcmpError::TimeExceeded)
}

/// A report quotes as much of the packet as its family's bound leaves, from the front:
/// 548 bytes over IPv4, which makes it 576 at most, and 1232 over IPv6, which makes it
/// 1280 at most. A packet that is no longer is quoted whole. The report goes from the
/// packet's destination to its source with 64 hops.
pub proof fn a_report_quotes_the_front_of_the_packet(
    m: Seq<u8>,
    source: IpAddr,
    destination: IpAddr,
    error: IcmpError,
    quoted: Seq<u8>,
)
    requires
        reads_as_report(m, source, destination, error, quoted),
    ensures
        source is V4 ==> {
            &&& m.len() == (if quoted.len() <= 548 { 28 + quoted.len() } else { 576 })
            &&& m.skip(28) == quoted.take(m.len() - 28)
            &&& m.subrange(12, 16) == destination.bytes()
            &&& m.subrange(16, 20) == source.bytes()
            &&& m[8] == 64
            &&& m[9] == 1
            &&& error is TimeExceeded ==> m[20] == 11 && m[21] == 0
            &&& error matches IcmpError::TooBig { next_hop_mtu } ==> m[20] == 3 && m[21] == 4 && m[26] * 256 + m[27]
                == next_hop_mtu
        },
        source is V6 ==> {
            &&& m.len() == (if quoted.len() <= 1232 { 48 + quoted.len() } else { 1280 })
            &&& m.skip(48) == quoted.take(m.len() - 48)
            &&& m.subrange(8, 24) == destination.bytes()
            &&& m.subrange(24, 40) == source.bytes()
            &&& m[7] == 64
            &&& m[6] == 58
            &&& error is TimeExceeded ==> m[40] == 3 && m[41] == 0
            &&& error matches IcmpError::TooBig { next_hop_mtu } ==> m[40] == 2 && m[41] == 0 && m[46] * 256 + m[47]
                == next_hop_mtu
        },
        source is V4 == destination is V4,
{
    assert(quoted.take(0int + quoted.len()) =~= quoted);
}

/// A packet that is too big is answered with the MTU it was held against, and one
/// whose hops ran out with that; what does not parse is not answered, and the buffer
/// stays as it is.
pub proof fn a_report_says_what_happened(
    out: &mut [u8],
    quoted: &[u8],
    next_hop_mtu: u16,
    r: Result<usize, WriteError>,
    parsed: Result<IngressPacket, packet::PacketError>,
)
    requires
        call_ensures(write_too_big, (out, quoted, next_hop_mtu), r),
        packet::is_parse_of(parsed, quoted@),
    ensures
        parsed is Err ==> r == Err::<usize, WriteError>(WriteError::Unquotable) && final(out)@ == old(out)@,
        r is Ok ==> parsed is Ok && reads_as_report(
            final(out)@.take(r->Ok_0 + 0),
            parsed->Ok_0.source,
            parsed->Ok_0.destination,
            IcmpError::TooBig { next_hop_mtu },
            quoted@,
        ),
        parsed is Ok && old(out)@.len() >= 1280 ==> r is Ok,
{
    let error = IcmpError::TooBig { next_hop_mtu };
    assert(is_report_of(parsed, quoted@, error, old(out)@, final(out)@, r));
    a_report_needs_only_room(quoted@, error, old(out)@, final(out)@, r, parsed);
}

/// The same of a packet whose hops ran out.
pub proof fn a_spent_packet_is_answered(
    out: &mut [u8],
    quoted: &[u8],
    r: Result<usize, WriteError>,
    parsed: Result<IngressPacket, packet::PacketError>,
)
    requires
        call_ensures(write_time_exceeded, (out, quoted), r),
        packet::is_parse_of(parsed, quoted@),
    ensures
        parsed is Err ==> r == Err::<usize, WriteError>(WriteError::Unquotable) && final(out)@ == old(out)@,
        r is Ok ==> parsed is Ok && reads_as_report(
            final(out)@.take(r->Ok_0 + 0),
            parsed->Ok_0.source,
            parsed->Ok_0.destination,
            IcmpError::TimeExceeded,
            quoted@,
        ),
        parsed is Ok && old(out)@.len() >= 1280 ==> r is Ok,
{
    let error = IcmpError::TimeExceeded;
    assert(is_report_of(parsed, quoted@, error, old(out)@, final(out)@, r));
    a_report_needs_only_room(quoted@, error, old(out)@, final(out)@, r, parsed);
}

} // verus!
