//! Datagram flows and their timers.

use boreas_core::{
    DatagramBuffer, Duration, Instant, InternalEndpoint, IpAddr, Ipv4Addr, SendOutcome,
    UdpFlowTable,
};

fn after(from: Instant, millis: u64) -> Instant {
    from.checked_add(Duration::from_millis(millis)).unwrap()
}

#[test]
fn datagram_buffer_drops_instead_of_waiting() {
    let mut buffer = DatagramBuffer::new(1);
    assert_eq!(buffer.try_send(1), SendOutcome::Buffered);
    assert_eq!(buffer.try_send(2), SendOutcome::Dropped);
    assert_eq!(buffer.dropped(), 1);
    assert_eq!(buffer.recv(), Some(1));
    assert_eq!(buffer.recv(), None);
}

#[test]
fn refresh_flood_does_not_grow_the_expiry_index() {
    let start = Instant { nanos: 1_000_000_000_000 };
    let endpoint = InternalEndpoint {
        address: IpAddr::V4(Ipv4Addr::new(192, 0, 2, 1)),
        port: 12_345,
    };
    let mut table = UdpFlowTable::new(Duration::from_secs(120), start).unwrap();
    for tick in 0..10_000 {
        let now = after(start, tick);
        let _ = table.get_or_insert_with(endpoint, now, || 1_u16);
    }
    assert_eq!(table.len(), 1);
    let wheel_slots = table.index_len();
    assert_eq!(wheel_slots, 1, "one flow, one wheel slot");

    assert!(table.expire(after(start, 119_000)).is_empty());
    assert_eq!(table.expire(after(start, 130_000)), vec![1]);
    assert!(table.is_empty());
}

#[test]
fn stale_wheel_slots_never_evict_a_refreshed_flow() {
    let start = Instant { nanos: 1_000_000_000_000 };
    let endpoint = InternalEndpoint {
        address: IpAddr::V4(Ipv4Addr::new(192, 0, 2, 1)),
        port: 12_345,
    };
    let mut table = UdpFlowTable::new(Duration::from_secs(120), start).unwrap();
    let _ = table.get_or_insert_with(endpoint, start, || 7_u16);
    let _ = table.get_or_insert_with(endpoint, after(start, 119_000), || 7);
    assert!(table.expire(after(start, 120_000)).is_empty());
    assert!(table.expire(after(start, 238_000)).is_empty());
    assert_eq!(table.expire(after(start, 240_000)), vec![7]);
}

#[test]
fn next_deadline_cost_is_independent_of_flow_count() {
    let start = Instant { nanos: 1_000_000_000_000 };
    let mut one = UdpFlowTable::new(Duration::from_secs(120), start).unwrap();
    let mut many = UdpFlowTable::new(Duration::from_secs(120), start).unwrap();

    let endpoint = |index: u32| InternalEndpoint {
        address: IpAddr::V4(Ipv4Addr::from_octets(index.to_be_bytes())),
        port: 12_345,
    };
    let _ = one.get_or_insert_with(endpoint(0), start, || 1_u16);
    for index in 0..10_000 {
        let _ = many.get_or_insert_with(endpoint(index), start, || 1_u16);
    }

    assert_eq!(one.next_deadline(), many.next_deadline());
    assert_eq!(many.len(), 10_000);
}

#[test]
fn a_rotation_collision_never_reports_a_deadline_late() {
    let start = Instant { nanos: 1_000_000_000_000 };
    let mut table = UdpFlowTable::new(Duration::from_secs(600), start).unwrap();
    let near = InternalEndpoint {
        address: IpAddr::V4(Ipv4Addr::new(192, 0, 2, 1)),
        port: 1,
    };
    let far = InternalEndpoint {
        address: IpAddr::V4(Ipv4Addr::new(192, 0, 2, 2)),
        port: 2,
    };

    let _ = table.get_or_insert_with(far, start, || 1_u16);
    let _ = table.get_or_insert_with(near, after(start, 88_000), || 2_u16);

    let reported = table.next_deadline().expect("two live flows");
    assert!(
        reported <= after(start, 600_000),
        "reported {reported:?} is later than the earliest real deadline"
    );

    assert_eq!(
        table.expire(after(start, 599_000)),
        Vec::<u16>::new()
    );
    assert_eq!(table.expire(after(start, 601_000)), vec![1]);
    assert_eq!(table.expire(after(start, 689_000)), vec![2]);
    assert!(table.is_empty());
    assert_eq!(table.next_deadline(), None);
}

#[test]
fn next_deadline_tracks_the_earliest_flow() {
    let start = Instant { nanos: 1_000_000_000_000 };
    let mut table = UdpFlowTable::new(Duration::from_secs(120), start).unwrap();
    assert_eq!(table.next_deadline(), None);
    let endpoint = InternalEndpoint {
        address: IpAddr::V4(Ipv4Addr::new(192, 0, 2, 1)),
        port: 12_345,
    };
    let _ = table.get_or_insert_with(endpoint, start, || 1_u16);
    let deadline = table.next_deadline().expect("one live flow");
    assert!(deadline <= after(start, 120_000));
    assert!(deadline >= start);
}

#[test]
fn a_second_that_was_looked_at_hides_no_flow() {
    let start = Instant { nanos: 1_000_000_000_000 };
    let endpoint = InternalEndpoint {
        address: IpAddr::V4(Ipv4Addr::new(192, 0, 2, 1)),
        port: 12_345,
    };
    let mut table = UdpFlowTable::new(Duration::from_secs(120), start).unwrap();
    let _ = table.get_or_insert_with(endpoint, after(start, 500), || 5_u16);
    assert!(table.expire(after(start, 120_200)).is_empty());
    let reported = table.next_deadline().expect("one live flow");
    assert!(reported <= after(start, 120_500));
    assert!(table.expire(after(start, 120_499)).is_empty());
    assert_eq!(table.expire(after(start, 120_500)), vec![5]);
    assert_eq!(table.next_deadline(), None);
}

#[test]
fn a_clock_that_runs_back_makes_no_deadline_late() {
    let start = Instant { nanos: 1_000_000_000_000 };
    let endpoint = InternalEndpoint {
        address: IpAddr::V4(Ipv4Addr::new(192, 0, 2, 1)),
        port: 12_345,
    };
    let mut table = UdpFlowTable::new(Duration::from_secs(120), start).unwrap();
    let _ = table.get_or_insert_with(endpoint, after(start, 500_000), || 5_u16);
    assert!(table.expire(after(start, 400_000)).is_empty());
    let _ = table.get_or_insert_with(endpoint, start, || 6);
    assert!(table.next_deadline().expect("one live flow") <= after(start, 120_000));
    assert_eq!(table.expire(after(start, 120_000)), vec![5]);
}

#[test]
fn datagrams_come_out_as_they_went_in() {
    let mut buffer = DatagramBuffer::new(2);
    assert_eq!(buffer.try_send(1), SendOutcome::Buffered);
    assert_eq!(buffer.try_send(2), SendOutcome::Buffered);
    assert_eq!(buffer.try_send(3), SendOutcome::Dropped);
    assert_eq!(buffer.recv(), Some(1));
    assert_eq!(buffer.try_send(4), SendOutcome::Buffered);
    assert_eq!(buffer.recv(), Some(2));
    assert_eq!(buffer.recv(), Some(4));
    assert_eq!(buffer.recv(), None);
    assert_eq!(buffer.dropped(), 1);
}
