//! Writing IP packets: synthesized datagrams, and hops spent in passing.

use vstd::prelude::*;
#[allow(unused_imports)]
use crate::addr;
#[allow(unused_imports)]
use crate::l3::packet;
#[allow(unused_imports)]
use crate::wire;

use crate::addr::InternalEndpoint;
use crate::addr::IpAddr;
use crate::addr::Ipv4Addr;
use crate::addr::Ipv6Addr;
#[allow(unused_imports)]
use crate::l3::packet::{IngressPacket, PacketError, Transport};
#[allow(unused_imports)]
use crate::wire::{checksum, sum_words};

verus! {

#[derive(Clone, Copy, Debug, PartialEq, Eq, Structural)]
pub enum WriteError {
    /// The endpoints use different address families; no valid header can be
    /// selected without guessing.
    MixedFamilies,
    PayloadTooLarge,
    OutputTooSmall,
    /// The reported bytes are not a parseable packet and cannot be quoted.
    Unquotable,
}

impl WriteError {
    /// The text of this error.
    pub open spec fn text(self) -> Seq<char> {
        match self {
            WriteError::MixedFamilies => "source and destination are different address families"@,
            WriteError::PayloadTooLarge => "payload exceeds what an IP header can describe"@,
            WriteError::OutputTooSmall => "output buffer is too small"@,
            WriteError::Unquotable => "the bytes to report on are not a packet"@,
        }
    }

    /// Renders this error for a reader.
    pub fn message(&self) -> (s: String)
        ensures
            s@ == self.text(),
    {
        match self {
            WriteError::MixedFamilies => String::from_str("source and destination are different address families"),
            WriteError::PayloadTooLarge => String::from_str("payload exceeds what an IP header can describe"),
            WriteError::OutputTooSmall => String::from_str("output buffer is too small"),
            WriteError::Unquotable => String::from_str("the bytes to report on are not a packet"),
        }
    }
}

/// Whether an oversized packet requires an explicit fragmentation failure. A
/// header that is malformed or not whole says nothing.
pub open spec fn must_not_fragment(packet: Seq<u8>) -> bool {
    ||| packet.len() >= 40 && packet[0] / 16 == 6
    ||| packet.len() >= 20 && packet[0] / 16 == 4 && 20 <= packet[0] % 16 * 4 <= packet.len() && (
    packet[6] / 64) % 2 == 1
}

/// Reports whether an oversized packet requires an explicit fragmentation failure.
///
/// IPv6 has no in-network fragmentation (RFC 8200), so every IPv6 packet
/// answers yes; IPv4 answers from the DF bit. A malformed or truncated header
/// answers no, so no error is synthesized for bytes that were not understood.
pub fn forbids_fragmentation(packet: &[u8]) -> (forbids: bool)
    ensures
        forbids == must_not_fragment(packet@),
{
    if packet.len() == 0 {
        return false;
    }
    match packet[0] / 16 {
        4 => {
            let header: usize = (packet[0] % 16) as usize * 4;
            header >= 20 && packet.len() >= header && (packet[6] / 64) % 2 == 1
        },
        6 => packet.len() >= 40,
        _ => false,
    }
}

/// Copies `bytes` to place `at`; everything else stays.
pub(crate) fn put(out: &mut [u8], at: usize, bytes: &[u8])
    requires
        at + bytes@.len() <= old(out)@.len(),
    ensures
        final(out)@ == old(out)@.take(at as int) + bytes@ + old(out)@.skip(at + bytes@.len()),
{
    let mut i: usize = 0;
    let room: usize = out.len();
    while i < bytes.len()
        invariant
            i <= bytes@.len(),
            room == old(out)@.len(),
            at + bytes@.len() <= room,
            out@ == old(out)@.take(at as int) + bytes@.take(i as int) + old(out)@.skip(at + i),
        decreases bytes@.len() - i,
    {
        out[at + i] = bytes[i];
        proof {
            assert(out@ =~= old(out)@.take(at as int) + bytes@.take(i + 1) + old(out)@.skip(at + i + 1));
        }
        i = i + 1;
    }
    assert(bytes@.take(i as int) =~= bytes@);
}

/// The checksum field after the hop count fell by one: the header word that
/// holds the count fell by 0x0100, so the complement rises by as much, carried
/// end around (RFC 1624).
pub open spec fn hop_checksum(check: nat) -> nat {
    if check + 256 > 65535 {
        (check + 256 - 65535) as nat
    } else {
        check + 256
    }
}

/// The hops left to a packet after this one: nothing for what is not IP.
pub open spec fn hops_left(packet: Seq<u8>) -> Option<u8> {
    if packet.len() >= 20 && packet[0] / 16 == 4 {
        Some(if packet[8] == 0 {
            0
        } else {
            (packet[8] - 1) as u8
        })
    } else if packet.len() >= 40 && packet[0] / 16 == 6 {
        Some(if packet[7] == 0 {
            0
        } else {
            (packet[7] - 1) as u8
        })
    } else {
        None
    }
}

/// The packet after one hop: the count lowered, and for IPv4 the header
/// checksum with it. A packet with no hop left after this one is not touched.
pub open spec fn after_hop(packet: Seq<u8>) -> Seq<u8> {
    match hops_left(packet) {
        None => packet,
        Some(left) => if left == 0 {
            packet
        } else if packet[0] / 16 == 4 {
            let check = hop_checksum(wire::be16(packet[10], packet[11]));
            packet.update(8, left).update(10, (check / 256) as u8).update(11, (check % 256) as u8)
        } else {
            packet.update(7, left)
        },
    }
}

/// Spends one hop (RFC 791, RFC 8200): the hops left after this one, or `None`
/// for a packet that is not IP. A packet arriving with one hop is spent here,
/// and `Some(0)` tells the caller to drop it and say so (RFC 1812). The IPv4
/// header checksum is updated in place (RFC 1624).
pub fn spend_hop(packet: &mut [u8]) -> (left: Option<u8>)
    ensures
        left == hops_left(old(packet)@),
        final(packet)@ == after_hop(old(packet)@),
{
    if packet.len() == 0 {
        return None;
    }
    let version: u8 = packet[0] / 16;
    if version == 4 && packet.len() >= 20 {
        let left: u8 = packet[8].saturating_sub(1);
        if left == 0 {
            return Some(0);
        }
        let raised: u32 = packet[10] as u32 * 256 + packet[11] as u32 + 256;
        let check: u32 = if raised > 65535 {
            raised - 65535
        } else {
            raised
        };
        packet[8] = left;
        packet[10] = (check / 256) as u8;
        packet[11] = (check % 256) as u8;
        Some(left)
    } else if version == 6 && packet.len() >= 40 {
        let left: u8 = packet[7].saturating_sub(1);
        if left > 0 {
            packet[7] = left;
        }
        Some(left)
    } else {
        None
    }
}

/// An IPv4 header that adds up still adds up after a hop is spent.
pub proof fn a_spent_hop_keeps_the_header_sum(packet: Seq<u8>, header_len: int)
    requires
        packet.len() >= 20,
        packet[0] / 16 == 4,
        20 <= header_len <= packet.len(),
        wire::adds_up(packet.take(header_len)),
    ensures
        wire::adds_up(after_hop(packet).take(header_len)),
{
    let left = hops_left(packet)->Some_0;
    if left != 0 {
        let h = packet.take(header_len);
        let check = hop_checksum(wire::be16(packet[10], packet[11]));
        let a = h.update(8, left).update(9, h[9]);
        let b = a.update(10, (check / 256) as u8).update(11, (check % 256) as u8);
        assert(after_hop(packet).take(header_len) =~= b);
        wire::lemma_words_sum_update(h, 8, left, h[9]);
        wire::lemma_words_sum_update(a, 10, (check / 256) as u8, (check % 256) as u8);
        let before = wire::words_sum(h);
        let after = wire::words_sum(b);
        assert(wire::be16((check / 256) as u8, (check % 256) as u8) == check);
        assert(after == before - 256 - wire::be16(packet[10], packet[11]) + check);
        assert(before > 0);
        if check == wire::be16(packet[10], packet[11]) + 256 {
            assert(after == before);
        } else {
            assert(after == before - 65535);
            assert(wire::be16(left, h[9]) > 0);
            wire::lemma_words_sum_update(b, 8, left, h[9]);
            assert(after > 0);
            wire::lemma_fold_congruent(before, after, 1);
        }
    }
}

/// Bytes of an IPv4 and a UDP header together.
pub const IPV4_UDP_HEADER: usize = 28;

/// Bytes of an IPv6 and a UDP header together.
pub const IPV6_UDP_HEADER: usize = 48;

/// The largest payload an IPv4 datagram can describe.
pub const MAX_IPV4_UDP_PAYLOAD: usize = 65507;

/// The largest payload an IPv6 datagram can describe.
pub const MAX_IPV6_UDP_PAYLOAD: usize = 65527;

/// Returns the complete datagram size for a payload of `payload_len` bytes.
pub fn udp_datagram_len(family: IpAddr, payload_len: usize) -> (len: usize)
    requires
        payload_len + 48 <= usize::MAX,
    ensures
        len == payload_len + (if family is V4 {
            IPV4_UDP_HEADER
        } else {
            IPV6_UDP_HEADER
        }),
{
    match family {
        IpAddr::V4(_) => IPV4_UDP_HEADER + payload_len,
        IpAddr::V6(_) => IPV6_UDP_HEADER + payload_len,
    }
}

/// RFC 768's zero-checksum escape: computed zero is sent as all ones, while
/// zero on the wire means that no checksum was computed.
pub open spec fn transmitted(sum: u16) -> u16 {
    if sum == 0 {
        0xffff
    } else {
        sum
    }
}

/// The UDP header of a payload of `len` bytes.
pub open spec fn udp_header(source_port: u16, destination_port: u16, len: int, sum: u16) -> Seq<u8> {
    let udp_len = (8 + len) as u16;
    seq![
        (source_port / 256) as u8,
        (source_port % 256) as u8,
        (destination_port / 256) as u8,
        (destination_port % 256) as u8,
        (udp_len / 256) as u8,
        (udp_len % 256) as u8,
        (sum / 256) as u8,
        (sum % 256) as u8,
    ]
}

/// The IPv4 header in front of a datagram: no options, do not fragment, 64
/// hops.
pub open spec fn udp4_ip_header(source: Ipv4Addr, destination: Ipv4Addr, len: int, sum: u16) -> Seq<u8> {
    let total = (28 + len) as u16;
    seq![
        0x45,
        0,
        (total / 256) as u8,
        (total % 256) as u8,
        0,
        0,
        0x40,
        0,
        64,
        17,
        (sum / 256) as u8,
        (sum % 256) as u8,
        source.a,
        source.b,
        source.c,
        source.d,
        destination.a,
        destination.b,
        destination.c,
        destination.d,
    ]
}

/// What the UDP checksum covers besides the datagram, over IPv4.
pub open spec fn pseudo4(source: Ipv4Addr, destination: Ipv4Addr, len: int) -> Seq<u8> {
    let udp_len = (8 + len) as u16;
    seq![
        source.a,
        source.b,
        source.c,
        source.d,
        destination.a,
        destination.b,
        destination.c,
        destination.d,
        0,
        17,
        (udp_len / 256) as u8,
        (udp_len % 256) as u8,
    ]
}

/// A UDP datagram over IPv4, with both checksums.
pub open spec fn udp4_packet(source: Ipv4Addr, source_port: u16, destination: Ipv4Addr, destination_port: u16, payload: Seq<u8>) -> Seq<u8> {
    let len = payload.len() as int;
    let header_sum = wire::internet_checksum(udp4_ip_header(source, destination, len, 0));
    let udp_sum = wire::internet_checksum(
        pseudo4(source, destination, len) + udp_header(source_port, destination_port, len, 0) + payload,
    );
    udp4_ip_header(source, destination, len, header_sum) + udp_header(
        source_port,
        destination_port,
        len,
        transmitted(udp_sum),
    ) + payload
}

/// The IPv6 header in front of a datagram.
pub open spec fn udp6_ip_header(source: Ipv6Addr, destination: Ipv6Addr, len: int) -> Seq<u8> {
    let udp_len = (8 + len) as u16;
    seq![0x60u8, 0, 0, 0, (udp_len / 256) as u8, (udp_len % 256) as u8, 17, 64] + source.bytes()
        + destination.bytes()
}

/// What the UDP checksum covers besides the datagram, over IPv6.
pub open spec fn pseudo6(source: Ipv6Addr, destination: Ipv6Addr, len: int) -> Seq<u8> {
    let udp_len = (8 + len) as u16;
    source.bytes() + destination.bytes() + seq![
        0u8,
        0,
        (udp_len / 256) as u8,
        (udp_len % 256) as u8,
        0,
        0,
        0,
        17,
    ]
}

/// A UDP datagram over IPv6, with its checksum.
pub open spec fn udp6_packet(source: Ipv6Addr, source_port: u16, destination: Ipv6Addr, destination_port: u16, payload: Seq<u8>) -> Seq<u8> {
    let len = payload.len() as int;
    let udp_sum = wire::internet_checksum(
        pseudo6(source, destination, len) + udp_header(source_port, destination_port, len, 0) + payload,
    );
    udp6_ip_header(source, destination, len) + udp_header(
        source_port,
        destination_port,
        len,
        transmitted(udp_sum),
    ) + payload
}

/// The datagram between two endpoints, or why there is none.
pub open spec fn udp_packet(source: InternalEndpoint, destination: InternalEndpoint, payload: Seq<u8>) -> Result<Seq<u8>, WriteError> {
    match (source.address, destination.address) {
        (IpAddr::V4(from), IpAddr::V4(to)) => if payload.len() > MAX_IPV4_UDP_PAYLOAD {
            Err(WriteError::PayloadTooLarge)
        } else {
            Ok(udp4_packet(from, source.port, to, destination.port, payload))
        },
        (IpAddr::V6(from), IpAddr::V6(to)) => if payload.len() > MAX_IPV6_UDP_PAYLOAD {
            Err(WriteError::PayloadTooLarge)
        } else {
            Ok(udp6_packet(from, source.port, to, destination.port, payload))
        },
        _ => Err(WriteError::MixedFamilies),
    }
}

/// Whether `r` and the buffer after the call are what writing `message` to the
/// front of a buffer gives: all of it or nothing.
pub open spec fn is_written(message: Result<Seq<u8>, WriteError>, before: Seq<u8>, after: Seq<u8>, r: Result<usize, WriteError>) -> bool {
    match message {
        Err(e) => r == Err::<usize, WriteError>(e) && after == before,
        Ok(bytes) => if bytes.len() > before.len() {
            r == Err::<usize, WriteError>(WriteError::OutputTooSmall) && after == before
        } else {
            r matches Ok(n) && n == bytes.len() && after == bytes + before.skip(n as int)
        },
    }
}

/// Folds the checksum of three parts of even length but for the last.
fn checksum_of(first: &[u8], second: &[u8], last: &[u8]) -> (sum: u16)
    requires
        first@.len() % 2 == 0,
        second@.len() % 2 == 0,
    ensures
        sum == wire::internet_checksum(first@ + second@ + last@),
{
    let a: u16 = sum_words(0, first, Ghost(0));
    let b: u16 = sum_words(a, second, Ghost(wire::words_sum(first@)));
    let c: u16 = sum_words(b, last, Ghost(wire::words_sum(first@) + wire::words_sum(second@)));
    proof {
        wire::lemma_words_sum_append(first@, second@);
        wire::lemma_words_sum_append(first@ + second@, last@);
        wire::lemma_fold_step(wire::words_sum(first@ + second@ + last@), 0);
    }
    65535 - c
}

/// Writes an IP header, UDP header, and payload into `out`.
///
/// This is the packet-writing counterpart to [`IngressPacket::parse`]. It
/// computes complete IP and UDP checksums, including the optional IPv4 UDP
/// checksum, because the datagram has no prior checksum to update.
pub fn write_udp(out: &mut [u8], source: InternalEndpoint, destination: InternalEndpoint, payload: &[u8]) -> (r: Result<usize, WriteError>)
    ensures
        is_written(udp_packet(source, destination, payload@), old(out)@, final(out)@, r),
{
    match (source.address, destination.address) {
        (IpAddr::V4(from), IpAddr::V4(to)) => write_udp_v4(out, from, source.port, to, destination.port, payload),
        (IpAddr::V6(from), IpAddr::V6(to)) => write_udp_v6(out, from, source.port, to, destination.port, payload),
        _ => Err(WriteError::MixedFamilies),
    }
}

fn write_udp_v4(out: &mut [u8], source: Ipv4Addr, source_port: u16, destination: Ipv4Addr, destination_port: u16, payload: &[u8]) -> (r: Result<usize, WriteError>)
    ensures
        is_written(
            if payload@.len() > MAX_IPV4_UDP_PAYLOAD {
                Err(WriteError::PayloadTooLarge)
            } else {
                Ok(udp4_packet(source, source_port, destination, destination_port, payload@))
            },
            old(out)@,
            final(out)@,
            r,
        ),
{
    if payload.len() > MAX_IPV4_UDP_PAYLOAD {
        return Err(WriteError::PayloadTooLarge);
    }
    let total: usize = IPV4_UDP_HEADER + payload.len();
    if out.len() < total {
        return Err(WriteError::OutputTooSmall);
    }
    let t: u16 = total as u16;
    let u: u16 = 8 + payload.len() as u16;
    let ghost len = payload@.len() as int;
    let bare: [u8; 20] = [
        0x45, 0, (t / 256) as u8, (t % 256) as u8, 0, 0, 0x40, 0, 64, 17, 0, 0,
        source.a, source.b, source.c, source.d,
        destination.a, destination.b, destination.c, destination.d,
    ];
    assert(bare@ =~= udp4_ip_header(source, destination, len, 0));
    let h: u16 = checksum(bare.as_slice());
    let pseudo: [u8; 12] = [
        source.a, source.b, source.c, source.d,
        destination.a, destination.b, destination.c, destination.d,
        0, 17, (u / 256) as u8, (u % 256) as u8,
    ];
    assert(pseudo@ =~= pseudo4(source, destination, len));
    let unsummed: [u8; 8] = udp_header_bytes(source_port, destination_port, u, 0);
    assert(unsummed@ =~= udp_header(source_port, destination_port, len, 0));
    let sum: u16 = checksum_of(pseudo.as_slice(), unsummed.as_slice(), payload);
    let header: [u8; 20] = [
        0x45, 0, (t / 256) as u8, (t % 256) as u8, 0, 0, 0x40, 0, 64, 17, (h / 256) as u8, (h % 256) as u8,
        source.a, source.b, source.c, source.d,
        destination.a, destination.b, destination.c, destination.d,
    ];
    assert(header@ =~= udp4_ip_header(source, destination, len, h));
    let udp: [u8; 8] = udp_header_bytes(source_port, destination_port, u, transmitted_checksum(sum));
    put(out, 0, header.as_slice());
    put(out, 20, udp.as_slice());
    put(out, 28, payload);
    assert(out@ =~= udp4_packet(source, source_port, destination, destination_port, payload@) + old(
        out,
    )@.skip(total as int));
    Ok(total)
}

fn write_udp_v6(out: &mut [u8], source: Ipv6Addr, source_port: u16, destination: Ipv6Addr, destination_port: u16, payload: &[u8]) -> (r: Result<usize, WriteError>)
    ensures
        is_written(
            if payload@.len() > MAX_IPV6_UDP_PAYLOAD {
                Err(WriteError::PayloadTooLarge)
            } else {
                Ok(udp6_packet(source, source_port, destination, destination_port, payload@))
            },
            old(out)@,
            final(out)@,
            r,
        ),
{
    if payload.len() > MAX_IPV6_UDP_PAYLOAD {
        return Err(WriteError::PayloadTooLarge);
    }
    let total: usize = IPV6_UDP_HEADER + payload.len();
    if out.len() < total {
        return Err(WriteError::OutputTooSmall);
    }
    let u: u16 = 8 + payload.len() as u16;
    let ghost len = payload@.len() as int;
    let from: [u8; 16] = source.octets();
    let to: [u8; 16] = destination.octets();
    let fixed: [u8; 8] = [0x60, 0, 0, 0, (u / 256) as u8, (u % 256) as u8, 17, 64];
    let tail: [u8; 8] = [0, 0, (u / 256) as u8, (u % 256) as u8, 0, 0, 0, 17];
    let unsummed: [u8; 8] = udp_header_bytes(source_port, destination_port, u, 0);
    assert(unsummed@ =~= udp_header(source_port, destination_port, len, 0));
    let a: u16 = sum_words(0, from.as_slice(), Ghost(0));
    let b: u16 = sum_words(a, to.as_slice(), Ghost(wire::words_sum(from@)));
    let c: u16 = sum_words(b, tail.as_slice(), Ghost(wire::words_sum(from@) + wire::words_sum(to@)));
    let d: u16 = sum_words(
        c,
        unsummed.as_slice(),
        Ghost(wire::words_sum(from@) + wire::words_sum(to@) + wire::words_sum(tail@)),
    );
    let e: u16 = sum_words(
        d,
        payload,
        Ghost(wire::words_sum(from@) + wire::words_sum(to@) + wire::words_sum(tail@) + wire::words_sum(unsummed@)),
    );
    proof {
        wire::lemma_words_sum_append(from@, to@);
        wire::lemma_words_sum_append(from@ + to@, tail@);
        assert(from@ + to@ + tail@ =~= pseudo6(source, destination, len));
        wire::lemma_words_sum_append(pseudo6(source, destination, len), unsummed@);
        wire::lemma_words_sum_append(pseudo6(source, destination, len) + unsummed@, payload@);
        wire::lemma_fold_step(wire::words_sum(pseudo6(source, destination, len) + unsummed@ + payload@), 0);
    }
    let sum: u16 = 65535 - e;
    let udp: [u8; 8] = udp_header_bytes(source_port, destination_port, u, transmitted_checksum(sum));
    put(out, 0, fixed.as_slice());
    put(out, 8, from.as_slice());
    put(out, 24, to.as_slice());
    put(out, 40, udp.as_slice());
    put(out, 48, payload);
    assert(out@ =~= udp6_packet(source, source_port, destination, destination_port, payload@) + old(
        out,
    )@.skip(total as int));
    Ok(total)
}

/// A written IPv4 datagram carries checksums that a receiver finds right: its
/// header adds up, and the datagram adds up with what it is checked against.
pub proof fn a_written_udp4_datagram_adds_up(source: Ipv4Addr, source_port: u16, destination: Ipv4Addr, destination_port: u16, payload: Seq<u8>)
    requires
        payload.len() <= MAX_IPV4_UDP_PAYLOAD,
    ensures
        ({
            let packet = udp4_packet(source, source_port, destination, destination_port, payload);
            &&& wire::adds_up(packet.take(20))
            &&& wire::adds_up(pseudo4(source, destination, payload.len() as int) + packet.skip(20))
        }),
{
    let len = payload.len() as int;
    let packet = udp4_packet(source, source_port, destination, destination_port, payload);
    let bare = udp4_ip_header(source, destination, len, 0);
    let h = wire::internet_checksum(bare);
    assert(packet.take(20) =~= udp4_ip_header(source, destination, len, h));
    assert(packet.take(20) =~= bare.update(10, (h / 256) as u8).update(11, (h % 256) as u8));
    wire::lemma_words_sum_update(bare, 10, (h / 256) as u8, (h % 256) as u8);
    wire::lemma_words_sum_update(bare, 0, bare[0], bare[1]);
    wire::lemma_checksum_completes(wire::words_sum(bare));
    assert(wire::adds_up(packet.take(20)));
    let pseudo = pseudo4(source, destination, len);
    lemma_udp_adds_up(pseudo, 8, source_port, destination_port, payload);
    let sum = wire::internet_checksum(pseudo + udp_header(source_port, destination_port, len, 0) + payload);
    assert(pseudo + packet.skip(20) =~= pseudo + udp_header(source_port, destination_port, len, transmitted(sum))
        + payload);
}

/// A written IPv6 datagram adds up with what it is checked against.
pub proof fn a_written_udp6_datagram_adds_up(source: Ipv6Addr, source_port: u16, destination: Ipv6Addr, destination_port: u16, payload: Seq<u8>)
    requires
        payload.len() <= MAX_IPV6_UDP_PAYLOAD,
    ensures
        wire::adds_up(
            pseudo6(source, destination, payload.len() as int) + udp6_packet(
                source,
                source_port,
                destination,
                destination_port,
                payload,
            ).skip(40),
        ),
{
    let len = payload.len() as int;
    let packet = udp6_packet(source, source_port, destination, destination_port, payload);
    let pseudo = pseudo6(source, destination, len);
    assert(pseudo[38] == 0 && pseudo[39] == 17);
    lemma_udp_adds_up(pseudo, 38, source_port, destination_port, payload);
    let sum = wire::internet_checksum(pseudo + udp_header(source_port, destination_port, len, 0) + payload);
    assert(pseudo + packet.skip(40) =~= pseudo + udp_header(source_port, destination_port, len, transmitted(sum))
        + payload);
}

/// The sum of a datagram behind a pseudo header that holds the protocol number
/// at `at`.
proof fn lemma_udp_adds_up(pseudo: Seq<u8>, at: int, source_port: u16, destination_port: u16, payload: Seq<u8>)
    requires
        pseudo.len() % 2 == 0,
        0 <= at,
        at % 2 == 0,
        at + 2 <= pseudo.len(),
        pseudo[at + 1] == 17,
    ensures
        ({
            let len = payload.len() as int;
            let sum = wire::internet_checksum(
                pseudo + udp_header(source_port, destination_port, len, 0) + payload,
            );
            wire::adds_up(pseudo + udp_header(source_port, destination_port, len, transmitted(sum)) + payload)
        }),
{
    let len = payload.len() as int;
    let bare = pseudo + udp_header(source_port, destination_port, len, 0) + payload;
    let sum = wire::internet_checksum(bare);
    let t = transmitted(sum);
    let n = pseudo.len() as int;
    assert(pseudo + udp_header(source_port, destination_port, len, t) + payload =~= bare.update(
        n + 6,
        (t / 256) as u8,
    ).update(n + 7, (t % 256) as u8));
    wire::lemma_words_sum_update(bare, n + 6, (t / 256) as u8, (t % 256) as u8);
    wire::lemma_words_sum_update(bare, at, bare[at], bare[at + 1]);
    wire::lemma_checksum_completes(wire::words_sum(bare));
}

/// The bytes of a written IPv4 datagram, field by field.
proof fn lemma_udp4_fields(from: Ipv4Addr, from_port: u16, to: Ipv4Addr, to_port: u16, payload: Seq<u8>)
    requires
        payload.len() <= MAX_IPV4_UDP_PAYLOAD,
    ensures
        ({
            let packet = udp4_packet(from, from_port, to, to_port, payload);
            &&& packet.len() == 28 + payload.len()
            &&& packet::is_plain_udp4(packet)
            &&& packet.subrange(12, 16) == from.bytes()
            &&& packet.subrange(16, 20) == to.bytes()
            &&& wire::be16(packet[20], packet[21]) == from_port
            &&& wire::be16(packet[22], packet[23]) == to_port
            &&& packet.subrange(28, 28 + payload.len() as int) == payload
        }),
{
    let packet = udp4_packet(from, from_port, to, to_port, payload);
    assert(packet.subrange(12, 16) =~= from.bytes());
    assert(packet.subrange(16, 20) =~= to.bytes());
    assert(packet.subrange(28, 28 + payload.len() as int) =~= payload);
}

/// The bytes of a written IPv6 datagram, field by field.
proof fn lemma_udp6_fields(from: Ipv6Addr, from_port: u16, to: Ipv6Addr, to_port: u16, payload: Seq<u8>)
    requires
        payload.len() <= MAX_IPV6_UDP_PAYLOAD,
    ensures
        ({
            let packet = udp6_packet(from, from_port, to, to_port, payload);
            &&& packet.len() == 48 + payload.len()
            &&& packet::is_plain_udp6(packet)
            &&& packet.subrange(8, 24) == from.bytes()
            &&& packet.subrange(24, 40) == to.bytes()
            &&& wire::be16(packet[40], packet[41]) == from_port
            &&& wire::be16(packet[42], packet[43]) == to_port
            &&& packet.subrange(48, 48 + payload.len() as int) == payload
        }),
{
    let packet = udp6_packet(from, from_port, to, to_port, payload);
    assert(packet.subrange(8, 24) =~= from.bytes());
    assert(packet.subrange(24, 40) =~= to.bytes());
    assert(packet.subrange(48, 48 + payload.len() as int) =~= payload);
}

/// Parsing what was written succeeds, and gives back what was written: both
/// endpoints, and the payload's bytes.
#[verifier::spinoff_prover]
pub proof fn parsing_undoes_writing(
    source: InternalEndpoint,
    destination: InternalEndpoint,
    payload: Seq<u8>,
    r: Result<IngressPacket, PacketError>,
)
    requires
        udp_packet(source, destination, payload) is Ok,
        ({
            let packet = udp_packet(source, destination, payload)->Ok_0;
            packet::is_plain4(packet) || packet::is_plain6(packet) ==> packet::is_plain_summary(
                r,
                packet,
            )
        }),
    ensures
        ({
            let packet = udp_packet(source, destination, payload)->Ok_0;
            let p = r->Ok_0;
            &&& r is Ok
            &&& p.source == source.address
            &&& p.destination == destination.address
            &&& p.transport == Transport::Udp {
                source_port: source.port,
                destination_port: destination.port,
            }
            &&& p.payload_at + p.payload_len <= packet.len()
            &&& packet.subrange(p.payload_at as int, p.payload_at + p.payload_len) == payload
        }),
{
    let packet = udp_packet(source, destination, payload)->Ok_0;
    let p = r->Ok_0;
    match (source.address, destination.address) {
        (IpAddr::V4(from), IpAddr::V4(to)) => {
            lemma_udp4_fields(from, source.port, to, destination.port, payload);
            addr::lemma_address_is_its_octets(p.source, source.address);
            addr::lemma_address_is_its_octets(p.destination, destination.address);
        },
        (IpAddr::V6(from), IpAddr::V6(to)) => {
            lemma_udp6_fields(from, source.port, to, destination.port, payload);
            addr::lemma_address_is_its_octets(p.source, source.address);
            addr::lemma_address_is_its_octets(p.destination, destination.address);
        },
        _ => {},
    }
}

fn udp_header_bytes(source_port: u16, destination_port: u16, udp_len: u16, sum: u16) -> (h: [u8; 8])
    requires
        udp_len >= 8,
    ensures
        h@ == udp_header(source_port, destination_port, udp_len - 8, sum),
{
    let h: [u8; 8] = [
        (source_port / 256) as u8,
        (source_port % 256) as u8,
        (destination_port / 256) as u8,
        (destination_port % 256) as u8,
        (udp_len / 256) as u8,
        (udp_len % 256) as u8,
        (sum / 256) as u8,
        (sum % 256) as u8,
    ];
    assert(h@ =~= udp_header(source_port, destination_port, udp_len - 8, sum));
    h
}

fn transmitted_checksum(sum: u16) -> (t: u16)
    ensures
        t == transmitted(sum),
{
    if sum == 0 {
        0xffff
    } else {
        sum
    }
}

/// Spending a hop lowers the hop count by one and, over IPv4, changes the header
/// checksum with it; every other byte stays. A packet on its last hop stays as it is
/// and has none left; so has one that arrives with none. What is no IP packet stays
/// as it is.
pub proof fn a_hop_costs_one(packet: &mut [u8], left: Option<u8>)
    requires
        call_ensures(spend_hop, (packet,), left),
    ensures
        final(packet)@.len() == old(packet)@.len(),
        old(packet)@.len() >= 20 && old(packet)@[0] / 16 == 4 ==> left is Some && {
            &&& old(packet)@[8] <= 1 ==> left == Some(0u8) && final(packet)@ == old(packet)@
            &&& old(packet)@[8] > 1 ==> left->0 == old(packet)@[8] - 1 && final(packet)@[8] == old(packet)@[8] - 1
            &&& forall|i: int|
                0 <= i < old(packet)@.len() && i != 8 && i != 10 && i != 11 ==> #[trigger] final(packet)@[i]
                    == old(packet)@[i]
        },
        old(packet)@.len() >= 40 && old(packet)@[0] / 16 == 6 ==> left is Some && {
            &&& old(packet)@[7] <= 1 ==> left == Some(0u8) && final(packet)@ == old(packet)@
            &&& old(packet)@[7] > 1 ==> left->0 == old(packet)@[7] - 1 && final(packet)@[7] == old(packet)@[7] - 1
            &&& forall|i: int|
                0 <= i < old(packet)@.len() && i != 7 ==> #[trigger] final(packet)@[i] == old(packet)@[i]
        },
        !(old(packet)@.len() >= 20 && old(packet)@[0] / 16 == 4) && !(old(packet)@.len() >= 40 && old(packet)@[0] / 16
            == 6) ==> left is None && final(packet)@ == old(packet)@,
{
}

/// No IPv6 packet may be fragmented, and an IPv4 packet may not exactly if its header
/// is whole and its Don't Fragment bit is set; nothing else forbids it.
pub proof fn only_a_flag_or_ipv6_forbids_fragmentation(packet: &[u8], r: bool)
    requires
        call_ensures(forbids_fragmentation, (packet,), r),
    ensures
        packet@.len() >= 40 && packet@[0] / 16 == 6 ==> r,
        packet@.len() >= 60 && packet@[0] / 16 == 4 && packet@[0] % 16 >= 5 ==> (r <==> packet@[6] % 128 >= 64),
        packet@.len() < 20 ==> !r,
        packet@.len() > 0 && packet@[0] / 16 != 4 && packet@[0] / 16 != 6 ==> !r,
        packet@.len() > 0 && packet@[0] / 16 == 4 && packet@[0] % 16 < 5 ==> !r,
{
}

/// What is written for a datagram over IPv4, field by field: a plain header of 64 hops
/// that forbids fragmentation and adds up, the ports, the length, a checksum that is
/// given and adds up, and the payload. It is written exactly if the payload can be
/// described and the buffer has room; otherwise the buffer stays as it is.
pub proof fn a_datagram_over_ipv4_is_written_in_full(
    out: &mut [u8],
    source: InternalEndpoint,
    destination: InternalEndpoint,
    payload: &[u8],
    r: Result<usize, WriteError>,
)
    requires
        call_ensures(write_udp, (out, source, destination, payload), r),
        source.address is V4,
        destination.address is V4,
    ensures
        payload@.len() > 65507 <==> r == Err::<usize, WriteError>(WriteError::PayloadTooLarge),
        payload@.len() <= 65507 && old(out)@.len() < 28 + payload@.len() <==> r == Err::<usize, WriteError>(
            WriteError::OutputTooSmall,
        ),
        r is Err ==> final(out)@ == old(out)@,
        r matches Ok(n) ==> {
            let m = final(out)@;
            &&& n == 28 + payload@.len()
            &&& m[0] == 0x45 && m[1] == 0
            &&& m[2] * 256 + m[3] == n
            &&& m[4] == 0 && m[5] == 0
            &&& m[6] == 0x40 && m[7] == 0
            &&& m[8] == 64
            &&& m[9] == 17
            &&& m.subrange(12, 16) == source.address.bytes()
            &&& m.subrange(16, 20) == destination.address.bytes()
            &&& m[20] * 256 + m[21] == source.port
            &&& m[22] * 256 + m[23] == destination.port
            &&& m[24] * 256 + m[25] == 8 + payload@.len()
            &&& m[26] != 0 || m[27] != 0
            &&& m.subrange(28, n as int) == payload@
            &&& m.skip(n as int) == old(out)@.skip(n as int)
            &&& wire::words_sum(m.take(20)) % 65535 == 0
            &&& wire::words_sum(m.subrange(12, 20) + seq![0u8, 17, m[24], m[25]] + m.subrange(20, n as int)) % 65535
                == 0
        },
{
    let from = source.address->V4_0;
    let to = destination.address->V4_0;
    if r is Ok {
        let n = r->Ok_0 as int;
        let m = final(out)@;
        let packet = udp4_packet(from, source.port, to, destination.port, payload@);
        assert(m == packet + old(out)@.skip(n));
        lemma_udp4_fields(from, source.port, to, destination.port, payload@);
        a_written_udp4_datagram_adds_up(from, source.port, to, destination.port, payload@);
        assert(m.take(20) =~= packet.take(20));
        wire::lemma_adds_up_is_divisible(wire::words_sum(m.take(20)));
        let pseudo = pseudo4(from, to, payload@.len() as int);
        assert(m.subrange(12, 20) + seq![0u8, 17, m[24], m[25]] + m.subrange(20, n) =~= pseudo + packet.skip(20));
        wire::lemma_adds_up_is_divisible(wire::words_sum(pseudo + packet.skip(20)));
        assert(m.subrange(12, 16) =~= packet.subrange(12, 16));
        assert(m.subrange(16, 20) =~= packet.subrange(16, 20));
        assert(m.subrange(28, n) =~= packet.subrange(28, n));
        assert(m.skip(n) =~= old(out)@.skip(n));
    }
}

/// What is written for a datagram over IPv6, field by field.
pub proof fn a_datagram_over_ipv6_is_written_in_full(
    out: &mut [u8],
    source: InternalEndpoint,
    destination: InternalEndpoint,
    payload: &[u8],
    r: Result<usize, WriteError>,
)
    requires
        call_ensures(write_udp, (out, source, destination, payload), r),
        source.address is V6,
        destination.address is V6,
    ensures
        payload@.len() > 65527 <==> r == Err::<usize, WriteError>(WriteError::PayloadTooLarge),
        payload@.len() <= 65527 && old(out)@.len() < 48 + payload@.len() <==> r == Err::<usize, WriteError>(
            WriteError::OutputTooSmall,
        ),
        r is Err ==> final(out)@ == old(out)@,
        r matches Ok(n) ==> {
            let m = final(out)@;
            &&& n == 48 + payload@.len()
            &&& m[0] == 0x60 && m[1] == 0 && m[2] == 0 && m[3] == 0
            &&& m[4] * 256 + m[5] == 8 + payload@.len()
            &&& m[6] == 17
            &&& m[7] == 64
            &&& m.subrange(8, 24) == source.address.bytes()
            &&& m.subrange(24, 40) == destination.address.bytes()
            &&& m[40] * 256 + m[41] == source.port
            &&& m[42] * 256 + m[43] == destination.port
            &&& m[44] * 256 + m[45] == 8 + payload@.len()
            &&& m[46] != 0 || m[47] != 0
            &&& m.subrange(48, n as int) == payload@
            &&& m.skip(n as int) == old(out)@.skip(n as int)
            &&& wire::words_sum(
                m.subrange(8, 40) + seq![0u8, 0, m[44], m[45], 0, 0, 0, 17] + m.subrange(40, n as int),
            ) % 65535 == 0
        },
{
    let from = source.address->V6_0;
    let to = destination.address->V6_0;
    if r is Ok {
        let n = r->Ok_0 as int;
        let m = final(out)@;
        let packet = udp6_packet(from, source.port, to, destination.port, payload@);
        assert(m == packet + old(out)@.skip(n));
        lemma_udp6_fields(from, source.port, to, destination.port, payload@);
        a_written_udp6_datagram_adds_up(from, source.port, to, destination.port, payload@);
        let pseudo = pseudo6(from, to, payload@.len() as int);
        assert(m.subrange(8, 40) + seq![0u8, 0, m[44], m[45], 0, 0, 0, 17] + m.subrange(40, n) =~= pseudo
            + packet.skip(40)) by {
            assert(m.subrange(8, 40) =~= packet.subrange(8, 24) + packet.subrange(24, 40));
        }
        wire::lemma_adds_up_is_divisible(wire::words_sum(pseudo + packet.skip(40)));
        assert(m.subrange(8, 24) =~= packet.subrange(8, 24));
        assert(m.subrange(24, 40) =~= packet.subrange(24, 40));
        assert(m.subrange(48, n) =~= packet.subrange(48, n));
        assert(m.skip(n) =~= old(out)@.skip(n));
    }
}

/// No datagram is written between two families, and the buffer stays as it is.
pub proof fn families_do_not_mix(
    out: &mut [u8],
    source: InternalEndpoint,
    destination: InternalEndpoint,
    payload: &[u8],
    r: Result<usize, WriteError>,
)
    requires
        call_ensures(write_udp, (out, source, destination, payload), r),
    ensures
        source.address is V4 != destination.address is V4 <==> r == Err::<usize, WriteError>(
            WriteError::MixedFamilies,
        ),
        r is Err ==> final(out)@ == old(out)@,
{
}

} // verus!
