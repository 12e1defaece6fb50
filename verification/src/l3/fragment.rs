//! Fragments of IP packets, and the packet rebuilt from them.

use vstd::prelude::*;
use vstd::slice::slice_subrange;
#[allow(unused_imports)]
use crate::l3::packet;
#[allow(unused_imports)]
use crate::wire;

use crate::addr::IpAddr;
use crate::addr::Ipv4Addr;
use crate::addr::Ipv6Addr;
use crate::l3::packet::slice_net;
use crate::l3::packet::Net;
use crate::l3::packet::PacketError;
use crate::wire::checksum;

verus! {

/// The IPv6 Fragment header's number (RFC 8200).
pub const IPV6_FRAGMENT: u8 = 44;

/// A fragment and the headers inherited by its reassembled packet.
#[derive(Clone, Copy, Debug, PartialEq, Eq)]
pub struct Fragment<'a> {
    pub source: IpAddr,
    pub destination: IpAddr,
    pub protocol: u8,
    pub identification: u32,
    /// Payload offset in bytes, always aligned to eight.
    pub offset: u16,
    pub more_fragments: bool,
    pub payload: &'a [u8],
    /// Header prefix inherited from the offset-zero fragment.
    pub headers: &'a [u8],
    /// IPv6 Next Header position to replace; absent for IPv4.
    pub next_header_at: Option<usize>,
}

/// Whether a prefix is a whole IPv4 header, as its own length field says.
pub open spec fn is_whole_ipv4_header(headers: Seq<u8>) -> bool {
    headers.len() >= 20 && headers.len() == (headers[0] % 16) * 4
}

/// Where the first IPv6 Fragment header of a packet lies, looked for from the
/// header at `at` on, whose number stands at `number_at`: the place of the
/// Fragment header's number, and of the header itself.
///
/// Headers before the Fragment header are inherited; later extension headers
/// are fragmentable data.
pub open spec fn fragment_header_from(packet: Seq<u8>, number_at: int, at: int) -> Option<(int, int)>
    decreases packet.len() - number_at,
{
    if number_at < 0 || number_at >= packet.len() || at <= number_at {
        None
    } else if packet[number_at] == IPV6_FRAGMENT {
        if at + 8 <= packet.len() {
            Some((number_at, at))
        } else {
            None
        }
    } else if at + 1 >= packet.len() {
        None
    } else if packet[number_at] == 0 || packet[number_at] == 43 || packet[number_at] == 60 {
        // Length in 8-byte units after the first 8 bytes.
        fragment_header_from(packet, at, at + (packet[at + 1] + 1) * 8)
    } else if packet[number_at] == 51 {
        // The Authentication Header counts 4-byte units.
        fragment_header_from(packet, at, at + (packet[at + 1] + 2) * 4)
    } else {
        None
    }
}

/// Finds an IPv6 Fragment header and the preceding Next Header byte.
fn ipv6_fragment_header(packet: &[u8]) -> (r: Option<(usize, usize)>)
    ensures
        match r {
            Some(found) => fragment_header_from(packet@, 6, 40) == Some((found.0 as int, found.1 as int))
                && found.0 < found.1 && found.1 + 8 <= packet@.len(),
            None => fragment_header_from(packet@, 6, 40) is None,
        },
{
    let mut number_at: usize = 6;
    let mut at: usize = 40;
    loop
        invariant
            number_at < at,
            fragment_header_from(packet@, 6, 40) == fragment_header_from(packet@, number_at as int, at as int),
        decreases usize::MAX - at,
    {
        if number_at >= packet.len() {
            return None;
        }
        let number: u8 = packet[number_at];
        if number == IPV6_FRAGMENT {
            if packet.len() >= 8 && at <= packet.len() - 8 {
                return Some((number_at, at));
            }
            return None;
        }
        if packet.len() == 0 || at >= packet.len() - 1 {
            return None;
        }
        let units: usize = packet[at + 1] as usize;
        let length: usize = match number {
            0 | 43 | 60 => (units + 1) * 8,
            51 => (units + 2) * 4,
            _ => return None,
        };
        proof {
            assert(fragment_header_from(packet@, number_at as int, at as int) == fragment_header_from(
                packet@,
                at as int,
                at + length,
            ));
        }
        match at.checked_add(length) {
            Some(next) => {
                number_at = at;
                at = next;
            },
            None => {
                proof {
                    let n = packet@[at as int];
                    assert(at + length > packet@.len());
                    assert(fragment_header_from(packet@, at as int, at + length) is None);
                }
                return None;
            },
        }
    }
}

impl<'a> Fragment<'a> {
    /// What parsing establishes: an aligned offset, and for IPv4 a whole
    /// header to inherit.
    pub open spec fn wf(&self) -> bool {
        &&& self.offset % 8 == 0
        &&& self.next_header_at is None ==> is_whole_ipv4_header(self.headers@)
    }

    /// Where the fragment's payload ends in the datagram.
    pub open spec fn extent(&self) -> int {
        self.offset + self.payload@.len()
    }

    /// Whether `r` is the fragment that a packet of this network layer is.
    pub open spec fn is_read_from(r: Option<Fragment<'a>>, packet: Seq<u8>, net: Net) -> bool {
        match net {
            Net::V4 { source, destination, fragmented, payload_len, .. } => if !fragmented {
                r is None
            } else {
                &&& r matches Some(f)
                &&& f.source is V4 && f.source.bytes() == source@
                &&& f.destination is V4 && f.destination.bytes() == destination@
                &&& f.protocol == packet[9]
                &&& f.identification == wire::be16(packet[4], packet[5])
                &&& f.offset == (wire::be16(packet[6], packet[7]) % 0x2000) * 8
                &&& f.more_fragments == ((packet[6] / 32) % 2 == 1)
                &&& f.payload@ == packet.subrange(packet::ip_end(packet) - payload_len, packet::ip_end(packet))
                &&& f.headers@ == packet.take((packet[0] % 16) * 4)
                &&& f.next_header_at is None
            },
            Net::V6 { source, destination, fragmented, .. } => if !fragmented {
                r is None
            } else {
                match fragment_header_from(packet, 6, 40) {
                    None => r is None,
                    Some((number_at, at)) => {
                        &&& r matches Some(f)
                        &&& f.source is V6 && f.source.bytes() == source@
                        &&& f.destination is V6 && f.destination.bytes() == destination@
                        &&& f.protocol == packet[at]
                        &&& f.identification == wire::be16(packet[at + 4], packet[at + 5]) * 65536 + wire::be16(
                            packet[at + 6],
                            packet[at + 7],
                        )
                        &&& f.offset == (wire::be16(packet[at + 2], packet[at + 3]) / 8) * 8
                        &&& f.more_fragments == (packet[at + 3] % 2 == 1)
                        &&& f.payload@ == packet.skip(at + 8)
                        &&& f.headers@ == packet.take(at)
                        &&& f.next_header_at is Some && f.next_header_at->Some_0 == number_at
                    },
                }
            },
            _ => r is None,
        }
    }

    /// Reads a fragment from a packet and its sliced network layer, or `None`
    /// for an unfragmented packet.
    pub fn from_net(packet: &'a [u8], net: Net) -> (r: Option<Fragment<'a>>)
        requires
            packet::net_reads_header(packet@, net),
        ensures
            Fragment::is_read_from(r, packet@, net),
            r matches Some(f) ==> f.wf(),
    {
        match net {
            Net::V4 { source, destination, fragmented, payload_len, .. } => {
                if !fragmented {
                    return None;
                }
                let header: usize = (packet[0] % 16) as usize * 4;
                let end: usize = packet[2] as usize * 256 + packet[3] as usize;
                let flags: u32 = packet[6] as u32 * 256 + packet[7] as u32;
                let headers: &'a [u8] = slice_subrange(packet, 0, header);
                assert(headers@ =~= packet@.take(header as int));
                Some(
                    Fragment {
                        source: IpAddr::V4(Ipv4Addr::from_octets(source)),
                        destination: IpAddr::V4(Ipv4Addr::from_octets(destination)),
                        protocol: packet[9],
                        identification: packet[4] as u32 * 256 + packet[5] as u32,
                        offset: ((flags % 0x2000) * 8) as u16,
                        more_fragments: (packet[6] / 32) % 2 == 1,
                        payload: slice_subrange(packet, end - payload_len, end),
                        headers,
                        next_header_at: None,
                    },
                )
            },
            Net::V6 { source, destination, fragmented, .. } => {
                if !fragmented {
                    return None;
                }
                // Headers after the Fragment header are fragmentable data and
                // must be retained for reassembly.
                let (number_at, at): (usize, usize) = match ipv6_fragment_header(packet) {
                    Some(found) => found,
                    None => return None,
                };
                let n: usize = packet.len();
                let field: u32 = packet[at + 2] as u32 * 256 + packet[at + 3] as u32;
                let high: u32 = packet[at + 4] as u32 * 256 + packet[at + 5] as u32;
                let low: u32 = packet[at + 6] as u32 * 256 + packet[at + 7] as u32;
                let headers: &'a [u8] = slice_subrange(packet, 0, at);
                assert(headers@ =~= packet@.take(at as int));
                let payload: &'a [u8] = slice_subrange(packet, at + 8, n);
                assert(payload@ =~= packet@.skip(at + 8));
                Some(
                    Fragment {
                        source: IpAddr::V6(Ipv6Addr::from_octets(source)),
                        destination: IpAddr::V6(Ipv6Addr::from_octets(destination)),
                        protocol: packet[at],
                        identification: high * 65536 + low,
                        offset: ((field / 8) * 8) as u16,
                        more_fragments: packet[at + 3] % 2 == 1,
                        payload,
                        headers,
                        next_header_at: Some(number_at),
                    },
                )
            },
            Net::Arp | Net::Missing => None,
        }
    }

    /// Parses a fragment, or returns `None` for an unfragmented packet.
    pub fn parse(packet: &'a [u8]) -> (r: Result<Option<Fragment<'a>>, PacketError>)
        ensures
            match packet::sliced_ip(packet@) {
                Err(text) => r matches Err(PacketError::Malformed(e)) && e@ == text,
                Ok(layers) => r is Ok && Fragment::is_read_from(r->Ok_0, packet@, layers.0),
            },
            packet::sliced_ip(packet@) matches Ok(layers) ==> packet::net_reads_header(packet@, layers.0)
                && (layers.0 is V4 || layers.0 is V6),
            packet::is_fragment4(packet@) || packet::is_fragment6(packet@) ==> r is Ok && r->Ok_0 is Some,
            packet::is_plain4(packet@) || packet::is_plain6(packet@) ==> r is Ok && r->Ok_0 is None,
            r matches Ok(Some(f)) ==> f.wf(),
    {
        match slice_net(packet) {
            Ok(net) => Ok(Fragment::from_net(packet, net)),
            Err(e) => Err(PacketError::Malformed(e)),
        }
    }

    pub fn source(&self) -> (a: IpAddr)
        ensures
            a == self.source,
    {
        self.source
    }

    pub fn destination(&self) -> (a: IpAddr)
        ensures
            a == self.destination,
    {
        self.destination
    }

    /// Transport protocol carried by the fragment.
    pub fn protocol(&self) -> (p: u8)
        ensures
            p == self.protocol,
    {
        self.protocol
    }

    /// Payload offset, a multiple of eight.
    pub fn offset(&self) -> (o: u16)
        ensures
            o == self.offset,
    {
        self.offset
    }

    pub fn more_fragments(&self) -> (m: bool)
        ensures
            m == self.more_fragments,
    {
        self.more_fragments
    }

    pub fn payload(&self) -> (p: &'a [u8])
        ensures
            p@ == self.payload@,
    {
        self.payload
    }
}

/// A complete IP packet rebuilt from received fragments. Its view is its bytes.
#[derive(Clone, Debug, PartialEq, Eq)]
pub struct ReassembledPacket(Vec<u8>);

impl View for ReassembledPacket {
    type V = Seq<u8>;

    closed spec fn view(&self) -> Seq<u8> {
        self.0@
    }
}

impl ReassembledPacket {
    pub(crate) fn of(bytes: Vec<u8>) -> (p: Self)
        ensures
            p@ == bytes@,
    {
        ReassembledPacket(bytes)
    }

    pub fn as_bytes(&self) -> (b: &[u8])
        ensures
            b@ == self@,
    {
        self.0.as_slice()
    }

    pub fn into_bytes(self) -> (b: Vec<u8>)
        ensures
            b@ == self@,
    {
        self.0
    }
}

/// An IPv4 packet of these headers and data: its total length right, More
/// Fragments and the offset cleared, and the header checksum computed anew.
pub open spec fn rebuilt4(headers: Seq<u8>, data: Seq<u8>) -> Option<Seq<u8>> {
    let packet = headers + data;
    if packet.len() < 20 || packet[0] / 16 != 4 || packet.len() > 65535 {
        None
    } else {
        let total = packet.len() as u16;
        let cleared = packet.update(2, (total / 256) as u8).update(3, (total % 256) as u8).update(
            6,
            ((packet[6] / 64) * 64) as u8,
        ).update(7, 0).update(10, 0).update(11, 0);
        let sum = wire::internet_checksum(cleared.take((packet[0] % 16) * 4));
        Some(cleared.update(10, (sum / 256) as u8).update(11, (sum % 256) as u8))
    }
}

/// An IPv6 packet of these headers and data: the Fragment header's number
/// written where the Fragment header was announced, and the payload length
/// right.
pub open spec fn rebuilt6(headers: Seq<u8>, number_at: int, protocol: u8, data: Seq<u8>) -> Option<Seq<u8>> {
    let packet = headers + data;
    if packet.len() < 40 || packet[0] / 16 != 6 || number_at >= packet.len() || packet.len() - 40 > 65535 {
        None
    } else {
        let payload = (packet.len() - 40) as u16;
        Some(
            packet.update(number_at, protocol).update(4, (payload / 256) as u8).update(
                5,
                (payload % 256) as u8,
            ),
        )
    }
}

/// The packet of the offset-zero headers and the reassembled data; nothing
/// where family or length fields cannot represent it.
pub open spec fn rebuilt(headers: Seq<u8>, next_header_at: Option<usize>, protocol: u8, data: Seq<u8>) -> Option<Seq<u8>> {
    match next_header_at {
        None => rebuilt4(headers, data),
        Some(at) => rebuilt6(headers, at as int, protocol, data),
    }
}

/// Rebuilds a packet from offset-zero headers and reassembled data.
pub(crate) fn rebuild(headers: &Vec<u8>, next_header_at: Option<usize>, protocol: u8, data: &Vec<u8>) -> (r: Option<Vec<u8>>)
    requires
        next_header_at is None ==> is_whole_ipv4_header(headers@),
    ensures
        match r {
            Some(packet) => rebuilt(headers@, next_header_at, protocol, data@) == Some(packet@),
            None => rebuilt(headers@, next_header_at, protocol, data@) is None,
        },
{
    let mut packet: Vec<u8> = Vec::new();
    packet.extend_from_slice(headers.as_slice());
    packet.extend_from_slice(data.as_slice());
    let ghost whole = packet@;
    assert(whole =~= headers@ + data@);
    let n: usize = packet.len();
    match next_header_at {
        None => {
            if n < 20 || packet[0] / 16 != 4 || n > 65535 {
                return None;
            }
            let header: usize = (packet[0] % 16) as usize * 4;
            packet.set(2, (n / 256) as u8);
            packet.set(3, (n % 256) as u8);
            let flags: u8 = (packet[6] / 64) * 64;
            packet.set(6, flags);
            packet.set(7, 0);
            packet.set(10, 0);
            packet.set(11, 0);
            let part: &[u8] = slice_subrange(packet.as_slice(), 0, header);
            assert(part@ =~= packet@.take(header as int));
            let sum: u16 = checksum(part);
            packet.set(10, (sum / 256) as u8);
            packet.set(11, (sum % 256) as u8);
            Some(packet)
        },
        Some(at) => {
            if n < 40 || packet[0] / 16 != 6 || at >= n {
                return None;
            }
            let payload: usize = n - 40;
            if payload > 65535 {
                return None;
            }
            packet.set(at, protocol);
            packet.set(4, (payload / 256) as u8);
            packet.set(5, (payload % 256) as u8);
            Some(packet)
        },
    }
}

/// A rebuilt IPv4 packet's header adds up, it is no fragment any more, and
/// nothing but the length, the fragment fields and the checksum was changed.
pub proof fn a_rebuilt_ipv4_packet_is_whole(headers: Seq<u8>, data: Seq<u8>)
    requires
        is_whole_ipv4_header(headers),
        rebuilt4(headers, data) is Some,
    ensures
        ({
            let packet = rebuilt4(headers, data)->Some_0;
            &&& packet.len() == headers.len() + data.len()
            &&& wire::be16(packet[2], packet[3]) == packet.len()
            &&& wire::be16(packet[6], packet[7]) % 0x4000 == 0
            &&& wire::adds_up(packet.take(headers.len() as int))
            &&& packet.skip(headers.len() as int) == data
            &&& packet.subrange(12, headers.len() as int) == headers.skip(12)
        }),
{
    let whole = headers + data;
    let packet = rebuilt4(headers, data)->Some_0;
    let total = whole.len() as u16;
    let n = headers.len() as int;
    let cleared = whole.update(2, (total / 256) as u8).update(3, (total % 256) as u8).update(
        6,
        ((whole[6] / 64) * 64) as u8,
    ).update(7, 0).update(10, 0).update(11, 0);
    let bare = cleared.take(n);
    let sum = wire::internet_checksum(bare);
    assert(packet.take(n) =~= bare.update(10, (sum / 256) as u8).update(11, (sum % 256) as u8));
    wire::lemma_words_sum_update(bare, 10, (sum / 256) as u8, (sum % 256) as u8);
    wire::lemma_words_sum_update(bare, 0, bare[0], bare[1]);
    wire::lemma_checksum_completes(wire::words_sum(bare));
    assert(packet.skip(n) =~= data);
    assert(packet.subrange(12, n) =~= headers.skip(12));
    assert(packet[6] == (whole[6] / 64) * 64);
}

/// A rebuilt IPv4 packet is the offset-zero headers and the data, byte for byte,
/// but for the total length, the fragment field and the header checksum. So it
/// carries the protocol, the identification, the addresses, the hop limit and the
/// options that its first fragment carried. It forbids fragmentation if that one
/// did. It is rebuilt exactly where the headers are IPv4's and the whole fits.
pub proof fn a_rebuilt_ipv4_packet_keeps_every_other_byte(headers: Seq<u8>, data: Seq<u8>, protocol: u8)
    requires
        is_whole_ipv4_header(headers),
    ensures
        rebuilt(headers, None, protocol, data) is Some <==> headers[0] / 16 == 4 && headers.len() + data.len()
            <= 65535,
        rebuilt(headers, None, protocol, data) matches Some(packet) ==> {
            &&& packet.len() == headers.len() + data.len()
            &&& forall|i: int|
                0 <= i < packet.len() && i != 2 && i != 3 && i != 6 && i != 7 && i != 10 && i != 11
                    ==> #[trigger] packet[i] == (headers + data)[i]
            &&& packet[9] == headers[9]
            &&& packet[2] * 256 + packet[3] == packet.len()
            &&& packet[6] / 64 == headers[6] / 64
            &&& packet[6] % 64 == 0
            &&& packet[7] == 0
            &&& wire::words_sum(packet.take(headers.len() as int)) % 65535 == 0
            &&& packet[10] * 256 + packet[11] < 65535
        },
{
    let whole = headers + data;
    if rebuilt4(headers, data) is Some {
        let packet = rebuilt4(headers, data)->Some_0;
        let total = whole.len() as u16;
        let n = headers.len() as int;
        let top = ((whole[6] / 64) * 64) as u8;
        let cleared = whole.update(2, (total / 256) as u8).update(3, (total % 256) as u8).update(6, top).update(
            7,
            0,
        ).update(10, 0).update(11, 0);
        let bare = cleared.take(n);
        let sum = wire::internet_checksum(bare);
        wire::lemma_words_sum_update(bare, 0, bare[0], bare[1]);
        assert(packet.take(n) =~= bare.update(10, (sum / 256) as u8).update(11, (sum % 256) as u8));
        wire::a_checksum_makes_the_words_add_up(bare, 10, sum);
        assert(packet[6] == top);
        assert(top / 64 == whole[6] / 64 && top % 64 == 0);
        assert(packet[10] == (sum / 256) as u8);
    }
}

/// A rebuilt IPv6 packet is the headers before the Fragment header and the data,
/// byte for byte, but for the payload length and the Next Header byte that
/// announced the Fragment header, which now announces what was fragmented. It is
/// rebuilt exactly where the headers are IPv6's and the payload fits.
pub proof fn a_rebuilt_ipv6_packet_keeps_every_other_byte(
    headers: Seq<u8>,
    number_at: usize,
    data: Seq<u8>,
    protocol: u8,
)
    requires
        headers.len() >= 40,
        6 <= number_at < headers.len(),
    ensures
        rebuilt(headers, Some(number_at), protocol, data) is Some <==> headers[0] / 16 == 6 && headers.len() - 40
            + data.len() <= 65535,
        rebuilt(headers, Some(number_at), protocol, data) matches Some(packet) ==> {
            &&& packet.len() == headers.len() + data.len()
            &&& forall|i: int|
                0 <= i < packet.len() && i != 4 && i != 5 && i != number_at ==> #[trigger] packet[i] == (headers
                    + data)[i]
            &&& packet[number_at as int] == protocol
            &&& packet[4] * 256 + packet[5] == packet.len() - 40
        },
{
}

/// Whether two headers differ in nothing but the total length, More Fragments and
/// the offset, and the checksum, as the headers of an IPv4 packet and of its
/// fragments do.
pub open spec fn same_header4(a: Seq<u8>, b: Seq<u8>) -> bool {
    &&& a.len() == b.len()
    &&& forall|i: int|
        0 <= i < a.len() && i != 2 && i != 3 && i != 6 && i != 7 && i != 10 && i != 11 ==> a[i] == b[i]
    &&& a[6] / 64 == b[6] / 64
}

/// Rebuilding undoes fragmenting: from the header of an IPv4 packet's first
/// fragment and the packet's data, the packet itself is rebuilt, checksum and all.
pub proof fn an_ipv4_packet_is_rebuilt_as_it_was(packet: Seq<u8>, headers: Seq<u8>, protocol: u8)
    requires
        20 <= packet.len() <= 65535,
        packet[0] / 16 == 4,
        20 <= (packet[0] % 16) * 4 <= packet.len(),
        packet[2] * 256 + packet[3] == packet.len(),
        packet[6] % 64 == 0,
        packet[7] == 0,
        wire::words_sum(packet.take((packet[0] % 16) * 4)) % 65535 == 0,
        packet[10] * 256 + packet[11] < 65535,
        same_header4(headers, packet.take((packet[0] % 16) * 4)),
    ensures
        rebuilt(headers, None, protocol, packet.skip((packet[0] % 16) * 4)) == Some(packet),
{
    let n = (packet[0] % 16) * 4;
    let data = packet.skip(n);
    assert(headers[0] == packet.take(n)[0]);
    assert(is_whole_ipv4_header(headers));
    let whole = headers + data;
    let total = whole.len() as u16;
    let cleared = whole.update(2, (total / 256) as u8).update(3, (total % 256) as u8).update(
        6,
        ((whole[6] / 64) * 64) as u8,
    ).update(7, 0).update(10, 0).update(11, 0);
    let bare = packet.update(10, 0).update(11, 0);
    assert(packet[2] == total / 256 && packet[3] == total % 256);
    assert(packet[6] == (packet[6] / 64) * 64);
    assert(headers[6] / 64 == packet.take(n)[6] / 64);
    assert forall|i: int| 0 <= i < packet.len() implies cleared[i] == bare[i] by {
        if i < n && i != 2 && i != 3 && i != 6 && i != 7 && i != 10 && i != 11 {
            assert(headers[i] == packet.take(n)[i]);
        }
    }
    assert(cleared =~= bare);
    let head = packet.take(n);
    let field = packet[10] * 256 + packet[11];
    wire::lemma_words_sum_update(head, 10, 0, 0);
    wire::lemma_words_sum_update(bare.take(n), 0, bare.take(n)[0], bare.take(n)[1]);
    assert(head.update(10, 0).update(11, 0) =~= bare.take(n));
    wire::a_checksum_is_determined(wire::words_sum(bare.take(n)), field as nat);
    let sum = wire::internet_checksum(bare.take(n));
    assert(sum == field);
    assert(bare.update(10, (sum / 256) as u8).update(11, (sum % 256) as u8) =~= packet);
}

/// Rebuilding undoes fragmenting over IPv6: from the headers before the Fragment
/// header, whose last Next Header byte announces it, and from what was
/// fragmented, the packet itself is rebuilt.
pub proof fn an_ipv6_packet_is_rebuilt_as_it_was(packet: Seq<u8>, headers: Seq<u8>, number_at: usize, protocol: u8)
    requires
        40 <= headers.len() <= packet.len() <= 40 + 65535,
        6 <= number_at < headers.len(),
        packet[0] / 16 == 6,
        packet[4] * 256 + packet[5] == packet.len() - 40,
        packet[number_at as int] == protocol,
        forall|i: int| 0 <= i < headers.len() && i != 4 && i != 5 && i != number_at ==> headers[i] == packet[i],
    ensures
        rebuilt(headers, Some(number_at), protocol, packet.skip(headers.len() as int)) == Some(packet),
{
    let data = packet.skip(headers.len() as int);
    let whole = headers + data;
    let payload = (whole.len() - 40) as u16;
    assert(packet[4] == payload / 256 && packet[5] == payload % 256);
    assert(rebuilt6(headers, number_at as int, protocol, data)->Some_0 =~= packet);
}

/// A fragment reads as its bytes say. Over IPv4: the addresses behind the
/// checksum, the protocol, the identification, thirteen bits of offset in units
/// of eight bytes, More Fragments, the whole header, and as payload everything
/// behind it up to the total length. Over IPv6 the same from the Fragment header
/// behind the first.
pub proof fn a_fragment_reads_as_its_bytes_say(packet: &[u8], r: Result<Option<Fragment>, PacketError>)
    requires
        call_ensures(Fragment::parse, (packet,), r),
        packet::is_fragment4(packet@) || packet::is_fragment6(packet@),
    ensures
        r is Ok && r->Ok_0 is Some,
        packet@[0] / 16 == 4 ==> {
            let f = r->Ok_0->0;
            let n = (packet@[0] % 16) * 4;
            &&& f.source is V4 && f.source.bytes() == packet@.subrange(12, 16)
            &&& f.destination is V4 && f.destination.bytes() == packet@.subrange(16, 20)
            &&& f.protocol == packet@[9]
            &&& f.identification == packet@[4] * 256 + packet@[5]
            &&& f.offset == ((packet@[6] % 32) * 256 + packet@[7]) * 8
            &&& f.more_fragments <==> (packet@[6] / 32) % 2 == 1
            &&& f.headers@ == packet@.take(n)
            &&& f.payload@ == packet@.subrange(n, packet@[2] * 256 + packet@[3])
            &&& f.next_header_at is None
        },
        packet@[0] / 16 == 6 ==> {
            let f = r->Ok_0->0;
            &&& f.source is V6 && f.source.bytes() == packet@.subrange(8, 24)
            &&& f.destination is V6 && f.destination.bytes() == packet@.subrange(24, 40)
            &&& f.protocol == packet@[40]
            &&& f.identification == packet@[44] * 0x100_0000 + packet@[45] * 0x1_0000 + packet@[46] * 256
                + packet@[47]
            &&& f.offset == packet@[42] * 256 + packet@[43] - packet@[43] % 8
            &&& f.more_fragments <==> packet@[43] % 2 == 1
            &&& f.headers@ == packet@.take(40)
            &&& f.payload@ == packet@.skip(48)
            &&& f.next_header_at == Some(6usize)
        },
{
    let p = packet@;
    if p[0] / 16 == 4 {
        let v = p[6] * 256 + p[7];
        assert(v % 0x2000 == (p[6] % 32) * 256 + p[7]) by (nonlinear_arith)
            requires
                v == p[6] * 256 + p[7],
                0 <= p[7] < 256,
                0 <= p[6] < 256,
        ;
    } else {
        assert(fragment_header_from(p, 6, 40) == Some((6int, 40int)));
        let v = p[42] * 256 + p[43];
        assert((v / 8) * 8 == v - p[43] % 8);
    }
}

/// How the headers before an IPv6 Fragment header are passed over. It is found where its
/// number announces it and it is whole. Hop-by-hop options, routing and destination options
/// are passed over by eight bytes and eight more for each that they count; authentication
/// by eight bytes and four more for each. Any other header ends the search.
pub proof fn extensions_are_passed_over_whole(packet: Seq<u8>, number_at: int, at: int)
    requires
        0 <= number_at < at,
        number_at < packet.len(),
    ensures
        packet[number_at] == 44 && at + 8 <= packet.len() ==> fragment_header_from(packet, number_at, at) == Some(
            (number_at, at),
        ),
        packet[number_at] == 44 && at + 8 > packet.len() ==> fragment_header_from(packet, number_at, at) is None,
        (packet[number_at] == 0 || packet[number_at] == 43 || packet[number_at] == 60) && at + 1 < packet.len()
            ==> fragment_header_from(packet, number_at, at) == fragment_header_from(
            packet,
            at,
            at + 8 + packet[at + 1] * 8,
        ),
        packet[number_at] == 51 && at + 1 < packet.len() ==> fragment_header_from(packet, number_at, at)
            == fragment_header_from(packet, at, at + 8 + packet[at + 1] * 4),
        packet[number_at] != 0 && packet[number_at] != 43 && packet[number_at] != 44 && packet[number_at] != 51
            && packet[number_at] != 60 ==> fragment_header_from(packet, number_at, at) is None,
{
}

} // verus!
