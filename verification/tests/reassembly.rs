//! Rebuilding packets from their fragments.

use boreas_core::wire::checksum;
use boreas_core::{
    Duration, Fragment, Instant, IpAddr, Ipv4Addr, Ipv6Addr, PacketError, PushOutcome, Reassembler,
};

fn start() -> Instant {
    Instant { nanos: 1_000_000_000_000 }
}

fn after(from: Instant, millis: u64) -> Instant {
    from.checked_add(Duration::from_millis(millis)).unwrap()
}

/// The packet of an outcome that must be complete.
fn completed(outcome: PushOutcome) -> Vec<u8> {
    match outcome {
        PushOutcome::Complete(packet) => packet.into_bytes(),
        other => panic!("not complete: {other:?}"),
    }
}

const NOW: fn() -> Instant = start;

const HEADER: [u8; 20] = [
    0x45, 0x00, 0x00, 0x1c, 0xbe, 0xef, 0x20, 0x00, 64, 17, 0, 0, 192, 0, 2, 1, 198, 51, 100, 2,
];

fn fragment(offset: u16, more_fragments: bool, payload: &'static [u8]) -> Fragment<'static> {
    Fragment {
        source: IpAddr::V4(Ipv4Addr::new(192, 0, 2, 1)),
        destination: IpAddr::V4(Ipv4Addr::new(198, 51, 100, 2)),
        protocol: 17,
        identification: 0xbeef,
        offset,
        more_fragments,
        payload,
        headers: &HEADER,
        next_header_at: None,
    }
}

fn datagram(payload: &[u8]) -> Vec<u8> {
    let mut packet = HEADER.to_vec();
    packet.extend_from_slice(payload);
    let total = u16::try_from(packet.len()).unwrap();
    packet[2..4].copy_from_slice(&total.to_be_bytes());
    packet[6] = 0;
    packet[7] = 0;
    packet[10..12].copy_from_slice(&[0, 0]);
    let sum = checksum(&packet[..20]);
    packet[10..12].copy_from_slice(&sum.to_be_bytes());
    packet
}

fn fresh_reassembler() -> Reassembler {
    Reassembler::new(Duration::from_secs(30), 8)
}

#[test]
fn reassembles_out_of_order_fragments() {
    let mut reassembler = fresh_reassembler();
    let now = NOW();
    let message: &[u8] = b"a datagram split across three whole blocks!";

    assert_eq!(
        reassembler.push(fragment(16, false, &message[16..]), now),
        PushOutcome::Pending
    );
    assert_eq!(
        reassembler.push(fragment(0, true, &message[..8]), now),
        PushOutcome::Pending
    );
    assert_eq!(
        completed(reassembler.push(fragment(8, true, &message[8..16]), now)),
        datagram(message)
    );
    assert!(reassembler.is_empty());
}

#[test]
fn any_overlap_discards_the_datagram() {
    let now = NOW();
    let first = fragment(0, true, b"12345678");

    let mut reassembler = fresh_reassembler();
    assert_eq!(reassembler.push(first, now), PushOutcome::Pending);
    assert_eq!(reassembler.push(first, now), PushOutcome::Discarded);
    let mut fresh = fresh_reassembler();
    assert_eq!(
        fresh.push(fragment(0, true, b"12345678"), now),
        PushOutcome::Pending
    );
    assert_eq!(
        fresh.push(fragment(0, true, b"1234567X"), now),
        PushOutcome::Discarded
    );
    assert_eq!(
        fresh.push(fragment(0, true, b"12345678"), now),
        PushOutcome::Discarded
    );
    assert_eq!(
        fresh.push(fragment(8, false, b"87654321"), now),
        PushOutcome::Discarded
    );
    assert_eq!(fresh.discarded(), 3);
}

#[test]
fn rejects_malformed_fragments_and_bounds_capacity() {
    let mut reassembler = fresh_reassembler();
    let now = NOW();

    assert_eq!(
        reassembler.push(fragment(0, true, b"short"), now),
        PushOutcome::Discarded
    );
    assert_eq!(
        reassembler.push(fragment(8, false, b"tail"), now),
        PushOutcome::Pending
    );
    assert_eq!(
        reassembler.push(fragment(16, false, b"tail"), now),
        PushOutcome::Discarded
    );

    let mut tiny = Reassembler::new(Duration::from_secs(30), 1);
    let first = fragment(0, true, b"12345678");
    assert_eq!(tiny.push(first, now), PushOutcome::Pending);
    let mut second = fragment(0, true, b"12345678");
    second.identification = 0xcafe;
    assert_eq!(tiny.push(second, now), PushOutcome::Discarded);
    assert_eq!(tiny.expire(after(now, 31_000)), 1);
    assert_eq!(tiny.push(second, now), PushOutcome::Pending);
}

fn index_slots(reassembler: &Reassembler) -> usize {
    reassembler.index_len()
}

#[test]
fn a_fragment_flood_does_not_grow_the_expiry_index() {
    let start = NOW();
    let mut reassembler = fresh_reassembler();
    assert_eq!(
        reassembler.push(fragment(0, true, b"aaaaaaaa"), start),
        PushOutcome::Pending
    );

    for tick in 0..10_000 {
        let now = after(start, tick);
        assert_eq!(
            reassembler.push(fragment(0, true, b"aaaaaaaa"), now),
            PushOutcome::Discarded,
            "an overlapping fragment is refused"
        );
    }

    assert_eq!(reassembler.len(), 1, "one pending datagram");
    assert_eq!(index_slots(&reassembler), 1, "one datagram, one slot");
}

#[test]
fn a_completed_datagram_takes_its_index_slot_with_it() {
    let now = NOW();
    let mut reassembler = fresh_reassembler();
    assert_eq!(
        reassembler.push(fragment(0, true, b"aaaaaaaa"), now),
        PushOutcome::Pending
    );
    assert_eq!(index_slots(&reassembler), 1);
    assert_eq!(
        completed(reassembler.push(fragment(8, false, b"bb"), now)),
        datagram(b"aaaaaaaabb")
    );
    assert!(reassembler.is_empty());
    assert_eq!(index_slots(&reassembler), 0, "the slot left with the entry");
    assert_eq!(reassembler.next_deadline(), None);
}

#[test]
fn a_refreshed_datagram_that_completes_leaves_no_slot_behind() {
    let start = NOW();
    let mut reassembler = fresh_reassembler();
    assert_eq!(
        reassembler.push(fragment(0, true, b"aaaaaaaa"), start),
        PushOutcome::Pending
    );
    assert_eq!(
        completed(reassembler.push(fragment(8, false, b"bb"), after(start, 5_000))),
        datagram(b"aaaaaaaabb")
    );
    assert!(reassembler.is_empty());
    assert_eq!(index_slots(&reassembler), 0, "the slot left with the entry");
    assert_eq!(reassembler.next_deadline(), None);
}

#[test]
fn an_ipv6_datagram_is_rebuilt_without_its_fragment_header() {
    let mut first = vec![
        0x60, 0, 0, 0, 0, 16, 44, 64, 0, 0, 0, 0, 0, 0, 0, 0, 0, 0, 0, 0, 0, 0, 0, 1, 0, 0, 0,
        0, 0, 0, 0, 0, 0, 0, 0, 0, 0, 0, 0, 1, 17, 0, 0, 1, 0xde, 0xad, 0xbe, 0xef,
    ];
    first.extend_from_slice(b"aaaaaaaa");
    let mut second = first[..48].to_vec();
    second[5] = 10; // payload length: the Fragment header plus two bytes
    second[42] = 0; // fragment offset 8 bytes, more fragments clear
    second[43] = 8;
    second.extend_from_slice(b"bb");

    let mut reassembler = fresh_reassembler();
    let first = Fragment::parse(&first).unwrap().unwrap();
    assert_eq!(reassembler.push(first, NOW()), PushOutcome::Pending);
    let second = Fragment::parse(&second).unwrap().unwrap();
    let PushOutcome::Complete(packet) = reassembler.push(second, NOW()) else {
        panic!("every fragment arrived");
    };
    let packet = packet.into_bytes();

    assert_eq!(packet.len(), 50, "40-byte header plus ten bytes of payload");
    assert_eq!(&packet[40..], b"aaaaaaaabb");
    assert_eq!(packet[6], 17, "the Fragment header's Next Header, spliced");
    assert_eq!(
        u16::from_be_bytes([packet[4], packet[5]]),
        10,
        "Payload Length counts the reassembled data, not the fragment"
    );
}

#[test]
fn a_refreshed_datagram_is_rebucketed_rather_than_evicted() {
    let start = NOW();
    let mut reassembler = fresh_reassembler();
    assert_eq!(
        reassembler.push(fragment(0, true, b"aaaaaaaa"), start),
        PushOutcome::Pending
    );
    assert_eq!(
        reassembler.push(
            fragment(8, true, b"bbbbbbbb"),
            after(start, 20_000)
        ),
        PushOutcome::Pending
    );

    assert_eq!(reassembler.expire(after(start, 31_000)), 0);
    assert_eq!(reassembler.len(), 1, "the refreshed datagram survived");
    assert_eq!(index_slots(&reassembler), 1, "and is still indexed");
    assert_eq!(
        reassembler.next_deadline(),
        Some(after(start, 50_000)),
        "re-bucketed at its real deadline"
    );
    assert_eq!(reassembler.expire(after(start, 51_000)), 1);
    assert!(reassembler.is_empty());
}

#[test]
fn a_fragment_beyond_the_declared_total_poisons_the_datagram() {
    let now = NOW();
    let mut reassembler = fresh_reassembler();
    assert_eq!(
        reassembler.push(fragment(1000, true, b"aaaaaaaa"), now),
        PushOutcome::Pending
    );
    assert_eq!(
        reassembler.push(fragment(0, false, b"bbbbbbbb"), now),
        PushOutcome::Discarded,
        "a declared total cannot be shorter than what already arrived"
    );
    assert_eq!(
        reassembler.push(fragment(0, false, b"bbbbbbbb"), now),
        PushOutcome::Discarded
    );
}

#[test]
fn rejects_empty_payload_fragments() {
    let mut reassembler = fresh_reassembler();
    assert_eq!(
        reassembler.push(fragment(0, false, b""), NOW()),
        PushOutcome::Discarded
    );
    assert_eq!(reassembler.discarded(), 1);
}

#[test]
fn parses_ipv4_and_ipv6_wire_fragments() {
    let ipv4 = [
        0x45, 0x00, 0x00, 0x1c, 0xbe, 0xef, 0x20, 0x01, 64, 17, 0, 0, 192, 0, 2, 1, 198, 51,
        100, 2, 1, 2, 3, 4, 5, 6, 7, 8,
    ];
    assert_eq!(
        Fragment::parse(&ipv4),
        Ok(Some(Fragment {
            source: IpAddr::V4(Ipv4Addr::new(192, 0, 2, 1)),
            destination: IpAddr::V4(Ipv4Addr::new(198, 51, 100, 2)),
            protocol: 17,
            identification: 0xbeef,
            offset: 8,
            more_fragments: true,
            payload: &[1, 2, 3, 4, 5, 6, 7, 8],
            headers: &ipv4[..20],
            next_header_at: None,
        }))
    );

    let ipv6 = [
        0x60, 0, 0, 0, 0, 16, 44, 64, 0, 0, 0, 0, 0, 0, 0, 0, 0, 0, 0, 0, 0, 0, 0, 1, 0, 0, 0,
        0, 0, 0, 0, 0, 0, 0, 0, 0, 0, 0, 0, 1, 17, 0, 0, 9, 0xde, 0xad, 0xbe, 0xef, 1, 2, 3, 4,
        5, 6, 7, 8,
    ];
    assert_eq!(
        Fragment::parse(&ipv6),
        Ok(Some(Fragment {
            source: IpAddr::V6(Ipv6Addr::new(0, 0, 0, 0, 0, 0, 0, 1)),
            destination: IpAddr::V6(Ipv6Addr::new(0, 0, 0, 0, 0, 0, 0, 1)),
            protocol: 17,
            identification: 0xdeadbeef,
            offset: 8,
            more_fragments: true,
            payload: &[1, 2, 3, 4, 5, 6, 7, 8],
            headers: &ipv6[..40],
            next_header_at: Some(6),
        }))
    );

    let mut whole = ipv4;
    whole[6] = 0;
    whole[7] = 0;
    whole[24..26].copy_from_slice(&8_u16.to_be_bytes()); // valid UDP length
    assert_eq!(Fragment::parse(&whole), Ok(None));
    assert!(matches!(
        Fragment::parse(&[0x45]),
        Err(PacketError::Malformed(_))
    ));
}

#[test]
fn a_clock_that_runs_back_keeps_no_datagram_too_long() {
    let start = NOW();
    let mut reassembler = fresh_reassembler();
    assert_eq!(
        reassembler.push(fragment(0, true, b"aaaaaaaa"), after(start, 100_000)),
        PushOutcome::Pending
    );
    assert_eq!(
        reassembler.push(fragment(8, true, b"bbbbbbbb"), start),
        PushOutcome::Pending
    );
    assert_eq!(index_slots(&reassembler), 1);
    assert_eq!(reassembler.next_deadline(), Some(after(start, 30_000)));
    assert_eq!(reassembler.expire(after(start, 29_999)), 0);
    assert_eq!(reassembler.expire(after(start, 30_000)), 1);
    assert!(reassembler.is_empty());
    assert_eq!(reassembler.next_deadline(), None);
}
