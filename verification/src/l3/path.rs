//! Path MTU decisions: clamping the MSS of TCP SYNs, and authenticating inbound
//! ICMP Packet Too Big messages against known flows.

use vstd::prelude::*;
use vstd::slice::slice_subrange;
#[allow(unused_imports)]
use crate::wire;

use crate::addr::InternalEndpoint;
use crate::l3::packet::IngressPacket;
use crate::l3::packet::Transport;
use crate::l3::udp::UdpFlowTable;
use crate::plan::Mtu;
use crate::plan::MIN_QUIC_MTU;
use crate::wire::sum_words;

verus! {

#[derive(Clone, Copy, Debug, PartialEq, Eq, Structural)]
pub struct PathUpdate {
    pub next_hop_mtu: u16,
}

/// The client endpoint whose flow a quoted packet belongs to, if it is of a
/// kind that has flows.
pub open spec fn quoted_endpoint(quoted: IngressPacket) -> Option<InternalEndpoint> {
    match quoted.transport {
        Transport::Udp { source_port, .. } => Some(
            InternalEndpoint { address: quoted.source, port: source_port },
        ),
        Transport::Tcp { source_port, .. } => Some(
            InternalEndpoint { address: quoted.source, port: source_port },
        ),
        _ => None,
    }
}

/// Accepts a PTB only when its quote identifies a known flow and its MTU meets
/// the minimum usable QUIC datagram size. Other messages leave path state
/// unchanged.
pub fn validate_ptb<V>(quoted: &IngressPacket, offered_mtu: u16, flows: &UdpFlowTable<V>) -> (r: Option<PathUpdate>)
    requires
        flows.wf(),
    ensures
        r == (if offered_mtu >= MIN_QUIC_MTU && quoted_endpoint(*quoted) is Some && flows@.dom().contains(
            quoted_endpoint(*quoted)->Some_0,
        ) {
            Some(PathUpdate { next_hop_mtu: offered_mtu })
        } else {
            None
        }),
{
    if offered_mtu < MIN_QUIC_MTU {
        return None;
    }
    let port: u16 = match quoted.transport {
        Transport::Udp { source_port, .. } => source_port,
        Transport::Tcp { source_port, .. } => source_port,
        Transport::Icmp(_) | Transport::Other | Transport::Fragment => return None,
    };
    if flows.contains(&InternalEndpoint { address: quoted.source, port }) {
        Some(PathUpdate { next_hop_mtu: offered_mtu })
    } else {
        None
    }
}

/// End of the option list.
pub const OPTION_END: u8 = 0;

/// One byte of padding between options.
pub const OPTION_NOOP: u8 = 1;

/// Maximum segment size.
pub const OPTION_MSS: u8 = 2;

/// The first MSS option of an option list, from place `at` on: where its value
/// lies and how long it is.
///
/// A list ends at its end marker, at the end of its bytes, and at a record that
/// does not fit it.
pub open spec fn mss_option(options: Seq<u8>, at: int) -> Option<(int, int)>
    decreases options.len() - at,
{
    if at < 0 || at >= options.len() || options[at] == OPTION_END {
        None
    } else if options[at] == OPTION_NOOP {
        mss_option(options, at + 1)
    } else if at + 1 >= options.len() || options[at + 1] < 2 || at + options[at + 1] > options.len() {
        None
    } else if options[at] == OPTION_MSS {
        Some((at + 2, options[at + 1] - 2))
    } else {
        mss_option(options, at + options[at + 1])
    }
}

/// The options of a TCP segment; none where its data offset is not valid.
pub open spec fn tcp_options(segment: Seq<u8>) -> Seq<u8> {
    let header = (segment[12] / 16) * 4;
    if segment.len() > 12 && 20 <= header <= segment.len() {
        segment.subrange(20, header as int)
    } else {
        Seq::empty()
    }
}

/// Where a SYN segment carries an MSS value above `clamp`, if it does.
pub open spec fn mss_above(segment: Seq<u8>, clamp: u16) -> Option<int> {
    if segment.len() <= 13 || (segment[13] / 2) % 2 == 0 {
        None
    } else {
        match mss_option(tcp_options(segment), 0) {
            None => None,
            Some((at, len)) => if len >= 2 && wire::be16(segment[20 + at], segment[21 + at]) > clamp {
                Some(20 + at)
            } else {
                None
            },
        }
    }
}

/// An MSS option lies inside its list.
proof fn lemma_mss_option_fits(options: Seq<u8>, at: int)
    ensures
        mss_option(options, at) matches Some(found) ==> at + 2 <= found.0 && 0 <= found.1 && found.0 + found.1
            <= options.len(),
    decreases options.len() - at,
{
    if 0 <= at < options.len() && options[at] != OPTION_END {
        if options[at] == OPTION_NOOP {
            lemma_mss_option_fits(options, at + 1);
        } else if at + 1 < options.len() && options[at + 1] >= 2 && at + options[at + 1] <= options.len()
            && options[at] != OPTION_MSS {
            lemma_mss_option_fits(options, at + options[at + 1]);
        }
    }
}

/// A value to clamp lies behind the fixed TCP header.
proof fn lemma_mss_above_fits(segment: Seq<u8>, clamp: u16)
    ensures
        mss_above(segment, clamp) matches Some(at) ==> 22 <= at && at + 2 <= segment.len(),
{
    lemma_mss_option_fits(tcp_options(segment), 0);
}

/// A segment whose MSS was lowered to `clamp`, with its checksum computed
/// anew over `pseudo` and the segment.
pub open spec fn clamped_segment(pseudo: Seq<u8>, segment: Seq<u8>, clamp: u16) -> Seq<u8> {
    match mss_above(segment, clamp) {
        None => segment,
        Some(at) => {
            let lowered = segment.update(at, (clamp / 256) as u8).update(at + 1, (clamp % 256) as u8);
            let cleared = lowered.update(16, 0).update(17, 0);
            let sum = wire::internet_checksum(pseudo + cleared);
            cleared.update(16, (sum / 256) as u8).update(17, (sum % 256) as u8)
        },
    }
}

/// Where the TCP segment of a packet lies: first place and end. Nothing where
/// the packet is no TCP, its lengths do not agree, or IPv6 extension headers
/// stand in between.
pub open spec fn segment_span(packet: Seq<u8>) -> Option<(int, int)> {
    if packet.len() == 0 {
        None
    } else if packet[0] / 16 == 4 {
        let header = (packet[0] % 16) * 4;
        let total = wire::be16(packet[2], packet[3]);
        if header >= 20 && packet.len() >= header + 20 && packet[9] == 6 && header + 20 <= total
            <= packet.len() {
            Some((header as int, total as int))
        } else {
            None
        }
    } else if packet[0] / 16 == 6 {
        let total = 40 + wire::be16(packet[4], packet[5]);
        if packet.len() >= 60 && packet[6] == 6 && total <= packet.len() {
            Some((40, total as int))
        } else {
            None
        }
    } else {
        None
    }
}

/// What a TCP checksum covers besides the segment of `len` bytes.
pub open spec fn tcp_pseudo(packet: Seq<u8>, len: int) -> Seq<u8> {
    let length = seq![(len / 256) as u8, (len % 256) as u8];
    if packet[0] / 16 == 4 {
        packet.subrange(12, 20) + seq![0u8, 6] + length
    } else {
        packet.subrange(8, 40) + seq![0u8, 0] + length + seq![0u8, 0, 0, 6]
    }
}

/// The largest segment a packet of `mtu` bytes can hold.
pub open spec fn mss_for(packet: Seq<u8>, mtu: u16) -> u16 {
    let headers: int = if packet[0] / 16 == 4 {
        40
    } else {
        60
    };
    if mtu < headers {
        0
    } else {
        (mtu - headers) as u16
    }
}

/// Whether clamping changes a packet.
pub open spec fn is_clampable(packet: Seq<u8>, mtu: u16) -> bool {
    match segment_span(packet) {
        None => false,
        Some((start, end)) => mss_above(packet.subrange(start, end), mss_for(packet, mtu)) is Some,
    }
}

/// The packet with its MSS clamped.
pub open spec fn clamped(packet: Seq<u8>, mtu: u16) -> Seq<u8> {
    match segment_span(packet) {
        None => packet,
        Some((start, end)) => packet.take(start) + clamped_segment(
            tcp_pseudo(packet, end - start),
            packet.subrange(start, end),
            mss_for(packet, mtu),
        ) + packet.skip(end),
    }
}

/// Finds an MSS value above `clamp` in a SYN segment.
fn find_mss_above(segment: &[u8], clamp: u16) -> (r: Option<usize>)
    ensures
        match r {
            Some(at) => mss_above(segment@, clamp) == Some(at as int),
            None => mss_above(segment@, clamp) is None,
        },
{
    if segment.len() <= 13 || (segment[13] / 2) % 2 == 0 {
        return None;
    }
    let header: usize = (segment[12] / 16) as usize * 4;
    if header < 20 || header > segment.len() {
        proof {
            assert(mss_option(tcp_options(segment@), 0) is None);
        }
        return None;
    }
    let options: &[u8] = slice_subrange(segment, 20, header);
    assert(options@ =~= tcp_options(segment@));
    let n: usize = options.len();
    let mut at: usize = 0;
    while at < n
        invariant
            at <= n,
            n == options@.len(),
            n <= 40,
            20 + n <= segment@.len(),
            options@ == tcp_options(segment@),
            options@ == segment@.subrange(20, 20 + n),
            segment@.len() > 13,
            (segment@[13] / 2) % 2 != 0,
            mss_option(options@, 0) == mss_option(options@, at as int),
        decreases n - at,
    {
        let kind: u8 = options[at];
        if kind == OPTION_END {
            return None;
        }
        if kind == OPTION_NOOP {
            at = at + 1;
            continue;
        }
        if at + 1 >= n {
            return None;
        }
        // The option length covers its two-byte header. Refusing lengths below
        // two also guarantees progress.
        let length: usize = options[at + 1] as usize;
        if length < 2 || at + length > n {
            return None;
        }
        if kind == OPTION_MSS {
            if length < 4 {
                return None;
            }
            let value: u32 = options[at + 2] as u32 * 256 + options[at + 3] as u32;
            if value > clamp as u32 {
                return Some(20 + at + 2);
            }
            return None;
        }
        at = at + length;
    }
    None
}

/// Clamps the segment between `start` and `end`. `acc` is the folded sum of
/// the pseudo header.
fn clamp_segment(packet: &mut [u8], start: usize, end: usize, clamp: u16, acc: u16, Ghost(pseudo): Ghost<Seq<u8>>) -> (changed: bool)
    requires
        start <= end <= old(packet)@.len(),
        pseudo.len() % 2 == 0,
        acc == wire::folded(wire::words_sum(pseudo)),
    ensures
        changed == mss_above(old(packet)@.subrange(start as int, end as int), clamp) is Some,
        final(packet)@ == old(packet)@.take(start as int) + clamped_segment(
            pseudo,
            old(packet)@.subrange(start as int, end as int),
            clamp,
        ) + old(packet)@.skip(end as int),
{
    let ghost segment = packet@.subrange(start as int, end as int);
    proof {
        lemma_mss_above_fits(segment, clamp);
    }
    let found = find_mss_above(slice_subrange(packet, start, end), clamp);
    let at: usize = match found {
        Some(at) => at,
        None => {
            assert(packet@ =~= packet@.take(start as int) + segment + packet@.skip(end as int));
            return false;
        },
    };
    packet[start + at] = (clamp / 256) as u8;
    packet[start + at + 1] = (clamp % 256) as u8;
    packet[start + 16] = 0;
    packet[start + 17] = 0;
    let ghost cleared = segment.update(at as int, (clamp / 256) as u8).update(
        at + 1,
        (clamp % 256) as u8,
    ).update(16, 0).update(17, 0);
    let part: &[u8] = slice_subrange(packet, start, end);
    assert(part@ =~= cleared);
    let folded: u16 = sum_words(acc, part, Ghost(wire::words_sum(pseudo)));
    proof {
        wire::lemma_words_sum_append(pseudo, cleared);
        wire::lemma_fold_step(wire::words_sum(pseudo + cleared), 0);
    }
    let sum: u16 = 65535 - folded;
    packet[start + 16] = (sum / 256) as u8;
    packet[start + 17] = (sum % 256) as u8;
    assert(packet@ =~= old(packet)@.take(start as int) + clamped_segment(pseudo, segment, clamp)
        + old(packet)@.skip(end as int));
    true
}

fn clamp_ipv4(packet: &mut [u8], clamp: u16) -> (changed: bool)
    requires
        old(packet)@.len() > 0,
        old(packet)@[0] / 16 == 4,
    ensures
        segment_span(old(packet)@) is None ==> !changed && final(packet)@ == old(packet)@,
        segment_span(old(packet)@) matches Some((start, end)) ==> {
            &&& changed == mss_above(old(packet)@.subrange(start, end), clamp) is Some
            &&& final(packet)@ == old(packet)@.take(start) + clamped_segment(
                tcp_pseudo(old(packet)@, end - start),
                old(packet)@.subrange(start, end),
                clamp,
            ) + old(packet)@.skip(end)
        },
{
    let header: usize = (packet[0] % 16) as usize * 4;
    if header < 20 || packet.len() < header + 20 || packet[9] != 6 {
        return false;
    }
    let total: usize = packet[2] as usize * 256 + packet[3] as usize;
    if total > packet.len() || total < header + 20 {
        return false;
    }
    let len: usize = total - header;
    let tail: [u8; 4] = [0, 6, (len / 256) as u8, (len % 256) as u8];
    let addresses: u16 = sum_words(0, slice_subrange(packet, 12, 20), Ghost(0));
    let acc: u16 = sum_words(addresses, tail.as_slice(), Ghost(wire::words_sum(packet@.subrange(12, 20))));
    proof {
        wire::lemma_words_sum_append(packet@.subrange(12, 20), tail@);
        assert(packet@.subrange(12, 20) + tail@ =~= tcp_pseudo(packet@, len as int));
    }
    clamp_segment(packet, header, total, clamp, acc, Ghost(tcp_pseudo(packet@, len as int)))
}

fn clamp_ipv6(packet: &mut [u8], clamp: u16) -> (changed: bool)
    requires
        old(packet)@.len() > 0,
        old(packet)@[0] / 16 == 6,
    ensures
        segment_span(old(packet)@) is None ==> !changed && final(packet)@ == old(packet)@,
        segment_span(old(packet)@) matches Some((start, end)) ==> {
            &&& changed == mss_above(old(packet)@.subrange(start, end), clamp) is Some
            &&& final(packet)@ == old(packet)@.take(start) + clamped_segment(
                tcp_pseudo(old(packet)@, end - start),
                old(packet)@.subrange(start, end),
                clamp,
            ) + old(packet)@.skip(end)
        },
{
    // Extension headers between the fixed header and TCP skip the clamp; such
    // SYNs are rare and pass through unharmed, just unclamped.
    if packet.len() < 60 || packet[6] != 6 {
        return false;
    }
    let len: usize = packet[4] as usize * 256 + packet[5] as usize;
    let total: usize = 40 + len;
    if total > packet.len() {
        return false;
    }
    let tail: [u8; 8] = [0, 0, (len / 256) as u8, (len % 256) as u8, 0, 0, 0, 6];
    let addresses: u16 = sum_words(0, slice_subrange(packet, 8, 40), Ghost(0));
    let acc: u16 = sum_words(addresses, tail.as_slice(), Ghost(wire::words_sum(packet@.subrange(8, 40))));
    proof {
        wire::lemma_words_sum_append(packet@.subrange(8, 40), tail@);
        assert(packet@.subrange(8, 40) + tail@ =~= tcp_pseudo(packet@, len as int));
    }
    clamp_segment(packet, 40, total, clamp, acc, Ghost(tcp_pseudo(packet@, len as int)))
}

/// Clamps a TCP SYN's MSS to the tunnel's packet budget.
///
/// Returns `true` only when a valid MSS option was changed. Recomputing the
/// complete TCP checksum keeps the write independent of its old checksum.
pub fn clamp_mss(packet: &mut [u8], inner_mtu: Mtu) -> (changed: bool)
    ensures
        changed == is_clampable(old(packet)@, inner_mtu@),
        final(packet)@ == clamped(old(packet)@, inner_mtu@),
        !changed ==> final(packet)@ == old(packet)@,
{
    if packet.len() == 0 {
        return false;
    }
    let mtu: u16 = inner_mtu.get();
    let changed = match packet[0] / 16 {
        4 => clamp_ipv4(packet, mtu.saturating_sub(40)),
        6 => clamp_ipv6(packet, mtu.saturating_sub(60)),
        _ => false,
    };
    proof {
        let p = old(packet)@;
        if let Some((start, end)) = segment_span(p) {
            assert(p =~= p.take(start) + p.subrange(start, end) + p.skip(end));
        }
    }
    changed
}

/// Writing a new value into an MSS option does not change where it is found.
proof fn lemma_mss_option_keeps_its_place(options: Seq<u8>, at: int, high: u8, low: u8)
    requires
        mss_option(options, at) is Some,
        mss_option(options, at)->Some_0.1 >= 2,
    ensures
        ({
            let found = mss_option(options, at)->Some_0;
            mss_option(options.update(found.0, high).update(found.0 + 1, low), at) == Some(found)
        }),
    decreases options.len() - at,
{
    lemma_mss_option_fits(options, at);
    if options[at] == OPTION_NOOP {
        lemma_mss_option_fits(options, at + 1);
        lemma_mss_option_keeps_its_place(options, at + 1, high, low);
    } else if options[at] != OPTION_MSS {
        lemma_mss_option_fits(options, at + options[at + 1]);
        lemma_mss_option_keeps_its_place(options, at + options[at + 1], high, low);
    }
}

/// A clamped segment carries exactly the clamp as its MSS, so that it is not
/// above it.
proof fn lemma_clamped_segment_is_within(pseudo: Seq<u8>, segment: Seq<u8>, clamp: u16)
    ensures
        mss_above(clamped_segment(pseudo, segment, clamp), clamp) is None,
        clamped_segment(pseudo, segment, clamp).len() == segment.len(),
{
    lemma_mss_above_fits(segment, clamp);
    if let Some(at) = mss_above(segment, clamp) {
        let after = clamped_segment(pseudo, segment, clamp);
        let options = tcp_options(segment);
        let found = mss_option(options, 0)->Some_0;
        let high = (clamp / 256) as u8;
        let low = (clamp % 256) as u8;
        lemma_mss_option_fits(options, 0);
        lemma_mss_option_keeps_its_place(options, 0, high, low);
        assert(tcp_options(after) =~= options.update(found.0, high).update(found.0 + 1, low));
        assert(after[20 + found.0] == high && after[21 + found.0] == low);
    }
}

/// Clamping reaches a fixed point at once: a clamped packet has nothing left to
/// clamp, and the headers in front of the segment and the bytes behind it are
/// as they were.
pub proof fn clamping_is_idempotent(packet: Seq<u8>, mtu: u16)
    ensures
        !is_clampable(clamped(packet, mtu), mtu),
        clamped(clamped(packet, mtu), mtu) == clamped(packet, mtu),
        clamped(packet, mtu).len() == packet.len(),
        segment_span(clamped(packet, mtu)) == segment_span(packet),
        segment_span(packet) matches Some((start, end)) ==> clamped(packet, mtu).take(start) == packet.take(
            start,
        ) && clamped(packet, mtu).skip(end) == packet.skip(end),
{
    if let Some((start, end)) = segment_span(packet) {
        let segment = packet.subrange(start, end);
        let pseudo = tcp_pseudo(packet, end - start);
        let clamp = mss_for(packet, mtu);
        let after = clamped(packet, mtu);
        lemma_clamped_segment_is_within(pseudo, segment, clamp);
        assert(after.take(start) =~= packet.take(start));
        assert(after.skip(end) =~= packet.skip(end));
        assert(forall|i: int| 0 <= i < start ==> after[i] == packet[i]);
        assert(after.subrange(start, end) =~= clamped_segment(pseudo, segment, clamp));
        assert(after.take(start) + after.subrange(start, end) + after.skip(end) =~= after);
    }
}

/// A clamped segment carries a checksum that a receiver finds right.
pub proof fn a_clamped_segment_adds_up(packet: Seq<u8>, mtu: u16)
    requires
        is_clampable(packet, mtu),
    ensures
        ({
            let (start, end) = segment_span(packet)->Some_0;
            let after = clamped(packet, mtu);
            wire::adds_up(tcp_pseudo(after, end - start) + after.subrange(start, end))
        }),
{
    let (start, end) = segment_span(packet)->Some_0;
    let after = clamped(packet, mtu);
    let segment = packet.subrange(start, end);
    let pseudo = tcp_pseudo(packet, end - start);
    let clamp = mss_for(packet, mtu);
    lemma_mss_above_fits(segment, clamp);
    let at = mss_above(segment, clamp)->Some_0;
    clamping_is_idempotent(packet, mtu);
    assert(after.subrange(start, end) =~= clamped_segment(pseudo, segment, clamp));
    assert(forall|i: int| 0 <= i < start ==> after[i] == packet[i]);
    assert(tcp_pseudo(after, end - start) =~= pseudo);
    let cleared = segment.update(at, (clamp / 256) as u8).update(at + 1, (clamp % 256) as u8).update(
        16,
        0,
    ).update(17, 0);
    let bare = pseudo + cleared;
    let sum = wire::internet_checksum(bare);
    let n = pseudo.len() as int;
    assert(pseudo + clamped_segment(pseudo, segment, clamp) =~= bare.update(
        n + 16,
        (sum / 256) as u8,
    ).update(n + 17, (sum % 256) as u8));
    wire::lemma_words_sum_update(bare, n + 16, (sum / 256) as u8, (sum % 256) as u8);
    // The protocol number alone keeps the sum above zero.
    let six: int = if packet[0] / 16 == 4 {
        8
    } else {
        38
    };
    assert(bare[six + 1] == 6);
    wire::lemma_words_sum_update(bare, six, bare[six], bare[six + 1]);
    wire::lemma_checksum_completes(wire::words_sum(bare));
}

/// Where an option lies in a list that starts `by` bytes earlier.
pub open spec fn moved_by(found: Option<(int, int)>, by: int) -> Option<(int, int)> {
    match found {
        Some((at, len)) => Some((at + by, len)),
        None => None,
    }
}

proof fn lemma_mss_option_moves(front: Seq<u8>, rest: Seq<u8>, at: int)
    requires
        0 <= at,
    ensures
        mss_option(front + rest, front.len() + at) == moved_by(mss_option(rest, at), front.len() as int),
    decreases rest.len() - at,
{
    let all = front + rest;
    let n = front.len() as int;
    if at < rest.len() {
        assert(all[n + at] == rest[at]);
        if at + 1 < rest.len() {
            assert(all[n + at + 1] == rest[at + 1]);
        }
        if rest[at] == OPTION_NOOP {
            lemma_mss_option_moves(front, rest, at + 1);
        } else if rest[at] != OPTION_END && at + 1 < rest.len() && rest[at + 1] >= 2 && at + rest[at + 1]
            <= rest.len() && rest[at] != OPTION_MSS {
            lemma_mss_option_moves(front, rest, at + rest[at + 1]);
        }
    }
}

/// How the list of options is read: a one is padding and is passed over, a zero ends
/// the list, a two is the segment size with its value behind its length, and any other
/// option is passed over whole.
pub proof fn options_are_passed_over_one_by_one(kind: u8, value: Seq<u8>, rest: Seq<u8>)
    requires
        value.len() <= 253,
    ensures
        mss_option(seq![1u8] + rest, 0) == moved_by(mss_option(rest, 0), 1),
        mss_option(seq![0u8] + rest, 0) is None,
        mss_option(seq![2u8, (2 + value.len()) as u8] + value + rest, 0) == Some((2int, value.len() as int)),
        kind > 2 ==> mss_option(seq![kind, (2 + value.len()) as u8] + value + rest, 0) == moved_by(
            mss_option(rest, 0),
            2 + value.len() as int,
        ),
        mss_option(Seq::<u8>::empty(), 0) is None,
{
    lemma_mss_option_moves(seq![1u8], rest, 0);
    let front = seq![kind, (2 + value.len()) as u8] + value;
    lemma_mss_option_moves(front, rest, 0);
    let all = front + rest;
    assert(all[0] == kind && all[1] == 2 + value.len());
    let mss = seq![2u8, (2 + value.len()) as u8] + value + rest;
    assert(mss[0] == 2 && mss[1] == 2 + value.len());
    assert((seq![1u8] + rest)[0] == 1);
    assert((seq![0u8] + rest)[0] == 0);
}

/// Clamping changes a packet in two places only, the value of the segment size and the
/// checksum, and only where a SYN carries a size above what the MTU leaves: 40 bytes
/// less over IPv4, 60 less over IPv6. It then carries exactly that. Everything else
/// passes as it is.
pub proof fn clamping_lowers_the_size_and_nothing_else(packet: &mut [u8], mtu: Mtu, changed: bool)
    requires
        call_ensures(clamp_mss, (packet, mtu), changed),
        mtu@ >= 1280,
    ensures
        final(packet)@.len() == old(packet)@.len(),
        !changed ==> final(packet)@ == old(packet)@,
        changed ==> exists|start: int, at: int|
            #![trigger final(packet)@[start + 16], final(packet)@[at]]
            {
                let limit = mtu@ - (if old(packet)@[0] / 16 == 4 {
                    40int
                } else {
                    60
                });
                &&& start == (if old(packet)@[0] / 16 == 4 {
                    (old(packet)@[0] % 16) * 4
                } else {
                    40
                })
                &&& start + 22 <= at && at + 2 <= old(packet)@.len()
                &&& (old(packet)@[start + 13] / 2) % 2 == 1
                &&& old(packet)@[at] * 256 + old(packet)@[at + 1] > limit
                &&& final(packet)@[at] * 256 + final(packet)@[at + 1] == limit
                &&& forall|i: int|
                    0 <= i < old(packet)@.len() && i != at && i != at + 1 && i != start + 16 && i != start + 17
                        ==> #[trigger] final(packet)@[i] == old(packet)@[i]
            },
        old(packet)@.len() > 0 && old(packet)@[0] / 16 != 4 && old(packet)@[0] / 16 != 6 ==> !changed,
        old(packet)@.len() >= 20 && old(packet)@[0] / 16 == 4 && old(packet)@[9] != 6 ==> !changed,
        old(packet)@.len() >= 40 && old(packet)@[0] / 16 == 6 && old(packet)@[6] != 6 ==> !changed,
{
    let p = old(packet)@;
    let q = final(packet)@;
    clamping_is_idempotent(p, mtu@);
    if changed {
        let (start, end) = segment_span(p)->Some_0;
        let segment = p.subrange(start, end);
        let clamp = mss_for(p, mtu@);
        let pseudo = tcp_pseudo(p, end - start);
        lemma_mss_above_fits(segment, clamp);
        let found = mss_above(segment, clamp)->Some_0;
        let at = start + found;
        lemma_mss_option_fits(tcp_options(segment), 0);
        let after = clamped_segment(pseudo, segment, clamp);
        assert(q == p.take(start) + after + p.skip(end));
        assert forall|i: int|
            0 <= i < p.len() && i != at && i != at + 1 && i != start + 16 && i != start + 17 implies #[trigger] q[i]
            == p[i] by {
            if start <= i < end {
                assert(q[i] == after[i - start]);
                assert(after[i - start] == segment[i - start]);
            }
        }
        assert(q[at] == after[found] && q[at + 1] == after[found + 1]);
        assert(segment[found] == p[at] && segment[found + 1] == p[at + 1]);
        assert(p[start + 13] == segment[13]);
        assert(q[start + 16] == after[16]);
    }
}

/// A SYN over IPv4 that carries a size above what the MTU leaves is clamped, wherever
/// among its options the size stands; any segment but a SYN is not.
pub proof fn a_syn_above_the_limit_is_clamped(packet: &mut [u8], mtu: Mtu, changed: bool, at: int)
    requires
        call_ensures(clamp_mss, (packet, mtu), changed),
        mtu@ >= 1280,
        old(packet)@.len() >= 40,
        old(packet)@[0] == 0x45,
        old(packet)@[9] == 6,
        old(packet)@[2] * 256 + old(packet)@[3] == old(packet)@.len(),
        20 <= (old(packet)@[32] / 16) * 4 <= old(packet)@.len() - 20,
        mss_option(old(packet)@.subrange(40, 20 + (old(packet)@[32] / 16) * 4), 0) == Some((at, 2int)),
    ensures
        changed <==> (old(packet)@[33] / 2) % 2 == 1 && old(packet)@[40 + at] * 256 + old(packet)@[41 + at] > mtu@
            - 40,
{
    let p = old(packet)@;
    let segment = p.subrange(20, p.len() as int);
    let header = (p[32] / 16) * 4;
    assert(segment[12] == p[32] && segment[13] == p[33]);
    let options = p.subrange(40, 20 + header);
    assert(tcp_options(segment) =~= options);
    lemma_mss_option_fits(options, 0);
    assert(segment[20 + at] == p[40 + at] && segment[21 + at] == p[41 + at]);
    assert(segment_span(p) == Some((20int, p.len() as int)));
}

/// A reported path is believed exactly if it carries QUIC's smallest datagram, 1200
/// bytes, and the packet it quotes is TCP or UDP that left from an endpoint with a
/// flow; then the path is as reported.
pub proof fn a_reported_path_is_believed_for_known_flows<V>(
    quoted: &IngressPacket,
    offered_mtu: u16,
    flows: &UdpFlowTable<V>,
    r: Option<PathUpdate>,
)
    requires
        flows.wf(),
        call_ensures(validate_ptb::<V>, (quoted, offered_mtu, flows), r),
    ensures
        r matches Some(update) ==> update.next_hop_mtu == offered_mtu && offered_mtu >= 1200,
        quoted.transport matches Transport::Udp { source_port, .. } ==> (r is Some <==> offered_mtu >= 1200
            && flows@.dom().contains(InternalEndpoint { address: quoted.source, port: source_port })),
        quoted.transport matches Transport::Tcp { source_port, .. } ==> (r is Some <==> offered_mtu >= 1200
            && flows@.dom().contains(InternalEndpoint { address: quoted.source, port: source_port })),
        !(quoted.transport is Udp) && !(quoted.transport is Tcp) ==> r is None,
{
}

} // verus!
