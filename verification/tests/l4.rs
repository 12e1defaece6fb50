//! Terminated connections and relayed datagrams.

use boreas_core::l4::relay::{not_given, report_due, take_received, Associations, Offer, Received};
use boreas_core::l4::stream::{
    ahead_micros, carried, elapsed_millis, syn_destination, Ended, SocketReport, TcpState,
};
use boreas_core::l4::terminate::{next_wake, Inward, Outward, Plumbing, Queued};
use boreas_core::{
    Duration, Instant, InternalEndpoint, IpAddr, Ipv4Addr, LocalStack, RelayCounts, RelayLimits, StreamError,
    StreamId, TerminationError, TerminationLimits,
};

fn limits(max_sockets: usize, backlog: usize) -> TerminationLimits {
    TerminationLimits {
        max_sockets,
        backlog,
        socket_buffer: 8192,
    }
}

fn endpoint(last: u8, port: u16) -> InternalEndpoint {
    InternalEndpoint {
        address: IpAddr::V4(Ipv4Addr::new(192, 0, 2, last)),
        port,
    }
}

fn report(state: TcpState) -> SocketReport {
    SocketReport {
        state,
        client: None,
        server: None,
    }
}

/// A stack with every listener that its ports lack, numbered from zero.
fn filled(ports: &[u16], limits: TerminationLimits) -> LocalStack {
    let mut stack = LocalStack::new(ports, limits).expect("the fixture fits");
    for (id, port) in stack.replenish().into_iter().enumerate() {
        stack.listener_added(id as u64, port);
    }
    stack
}

#[test]
fn a_ceiling_that_cannot_hold_a_backlog_per_port_is_refused() {
    let refused = TerminationError::SocketsBelowBacklog {
        ports: 2,
        backlog: 4,
        ceiling: 4,
    };
    assert_eq!(LocalStack::new(&[80, 443], limits(4, 4)).err(), Some(refused));
    assert_eq!(
        refused.text(),
        "2 ports at a backlog of 4 need 8 sockets, not 4"
    );
    let stack = filled(&[80, 443], limits(8, 4));
    for port in [80, 443] {
        assert_eq!(
            stack.listeners.iter().filter(|l| l.port == port).count(),
            4,
            "port {port} must get its whole backlog"
        );
    }
}

#[test]
fn a_finished_handshake_is_accepted_and_its_listener_replaced() {
    let mut stack = filled(&[443], limits(64, 4));
    let opened = SocketReport {
        state: TcpState::Established,
        client: Some(endpoint(10, 49152)),
        server: Some(endpoint(5, 443)),
    };
    let reports = vec![
        opened,
        report(TcpState::SynReceived),
        report(TcpState::Listen),
        report(TcpState::Closed),
    ];
    assert_eq!(stack.harvest(&reports, &Vec::new()), vec![3]);
    let accepted = stack.poll_accept().expect("the connection is accepted");
    assert_eq!(accepted.id, StreamId(0));
    assert_eq!(accepted.client, endpoint(10, 49152));
    assert_eq!(accepted.server, endpoint(5, 443));
    assert_eq!(stack.poll_accept(), None, "exactly one accept");
    assert_eq!(stack.listening(443), 1);
    assert_eq!(stack.replenish(), vec![443; 3]);
    assert_eq!(stack.socket_count(), 3);
}

#[test]
fn a_reset_is_told_from_a_close() {
    let mut stack = filled(&[443], limits(2, 1));
    let opened = SocketReport {
        state: TcpState::Established,
        client: Some(endpoint(10, 1)),
        server: Some(endpoint(5, 443)),
    };
    stack.harvest(&vec![opened], &Vec::new());
    stack.listener_added(1, 443);
    stack.harvest(&vec![opened], &vec![false]);
    assert_eq!(stack.replenish(), Vec::<u16>::new(), "the ceiling holds");
    let (ours, theirs) = (StreamId(0), StreamId(1));
    assert!(stack.close(ours));
    assert!(!stack.close(StreamId(9)));
    assert_eq!(stack.harvest(&Vec::new(), &vec![true, true]), vec![0, 1]);
    assert_eq!(
        stack.poll_closed(),
        Some(Ended {
            id: ours,
            reset: false
        })
    );
    assert_eq!(
        stack.poll_closed(),
        Some(Ended {
            id: theirs,
            reset: true
        })
    );
    assert_eq!(stack.poll_closed(), None);
    assert_eq!(
        stack.recv_gate(ours, true, true, TcpState::Established),
        Err(StreamError::Unknown)
    );
}

#[test]
fn a_stream_that_cannot_carry_bytes_says_why() {
    let mut stack = filled(&[443], limits(4, 1));
    let opened = SocketReport {
        state: TcpState::Established,
        client: Some(endpoint(10, 1)),
        server: Some(endpoint(5, 443)),
    };
    stack.harvest(&vec![opened], &Vec::new());
    let id = StreamId(0);
    assert_eq!(stack.recv_gate(id, true, true, TcpState::Established), Ok(()));
    assert_eq!(
        stack.recv_gate(id, false, true, TcpState::Established),
        Err(StreamError::WouldBlock)
    );
    assert_eq!(
        stack.recv_gate(id, false, false, TcpState::SynReceived),
        Err(StreamError::WouldBlock)
    );
    assert_eq!(
        stack.recv_gate(id, false, false, TcpState::CloseWait),
        Err(StreamError::Closed)
    );
    assert_eq!(
        stack.recv_gate(id, false, false, TcpState::Closed),
        Err(StreamError::Reset)
    );
    assert_eq!(stack.send_gate(id, true, TcpState::Established), Ok(()));
    assert_eq!(
        stack.send_gate(id, false, TcpState::LastAck),
        Err(StreamError::Closed)
    );
}

fn syn(port: u16, flags: u8) -> Vec<u8> {
    let mut packet = vec![0u8; 40];
    packet[0] = 0x45;
    packet[9] = 6;
    packet[22..24].copy_from_slice(&port.to_be_bytes());
    packet[33] = flags;
    packet
}

#[test]
fn every_port_mode_listens_for_the_port_a_syn_asks_for() {
    assert_eq!(syn_destination(&syn(22, 0x02)), Some(22));
    assert_eq!(syn_destination(&syn(22, 0x12)), None);
    assert_eq!(syn_destination(&syn(22, 0x10)), None);
    assert_eq!(syn_destination(&syn(22, 0x02)[..33]), None);
    assert_eq!(syn_destination(&[]), None);
    let mut six = vec![0u8; 60];
    six[0] = 0x60;
    six[6] = 6;
    six[43] = 22;
    six[53] = 0x02;
    assert_eq!(syn_destination(&six), Some(22));

    let mut stack = filled(&[443], limits(8, 4));
    assert_eq!(stack.arrived(&syn(22, 0x02)), None, "a fixed set stays fixed");
    stack.terminate_every_port();
    assert_eq!(stack.arrived(&syn(443, 0x02)), None);
    assert_eq!(stack.arrived(&syn(22, 0x02)), Some(22));
    stack.listener_added(100, 22);
    assert_eq!(stack.arrived(&syn(22, 0x02)), Some(22));
    stack.listener_added(101, 22);
    let reports = vec![report(TcpState::Listen); 6];
    stack.harvest(&reports, &Vec::new());
    assert_eq!(stack.arrived(&syn(22, 0x02)), None, "one already waits");
}

#[test]
fn time_is_never_before_the_stack() {
    let at = |nanos: u128| Instant { nanos };
    assert_eq!(elapsed_millis(at(5_000_000), at(0)), 0);
    assert_eq!(elapsed_millis(at(0), at(7_999_999)), 7);
    assert_eq!(elapsed_millis(at(0), at(u128::MAX)), i64::MAX);
    assert_eq!(ahead_micros(5, 3), 2);
    assert_eq!(ahead_micros(3, 5), 0);
    assert_eq!(carried(1500, 2048), 1500);
    assert_eq!(carried(1500, 1280), 1280);
}

#[test]
fn bytes_that_do_not_fit_wait_and_none_is_lost() {
    let mut plumbing = Plumbing::new();
    assert_eq!(plumbing.read(Ok(3)), Inward::Deliver(3));
    assert_eq!(plumbing.read(Ok(0)), Inward::Stop);
    assert_eq!(plumbing.read(Err(StreamError::WouldBlock)), Inward::Stop);
    assert!(plumbing.reads);

    assert_eq!(
        plumbing.next(Queued::Chunk(vec![1, 2, 3])),
        Outward::Send(vec![1, 2, 3])
    );
    assert!(!plumbing.wrote(vec![1, 2, 3], Ok(1)));
    assert_eq!(plumbing.take_pending(), Some(vec![2, 3]));
    assert!(!plumbing.wrote(vec![2, 3], Err(StreamError::WouldBlock)));
    assert_eq!(plumbing.take_pending(), Some(vec![2, 3]));
    assert!(plumbing.wrote(vec![2, 3], Ok(2)));
    assert_eq!(plumbing.take_pending(), None);
    assert!(!plumbing.wrote(vec![4], Err(StreamError::Reset)));
    assert_eq!(plumbing.next(Queued::Empty), Outward::Stop);
    assert_eq!(plumbing.next(Queued::Disconnected), Outward::Close);
    assert_eq!(plumbing.next(Queued::Disconnected), Outward::Stop);

    assert_eq!(plumbing.read(Err(StreamError::Closed)), Inward::Finish);
    assert!(!plumbing.reads);
    assert_eq!(Plumbing::new().read(Err(StreamError::Reset)), Inward::Reset);
}

#[test]
fn a_starved_terminator_waits_a_moment() {
    let at = |millis: u128| Instant {
        nanos: millis * 1_000_000,
    };
    assert_eq!(next_wake(None, at(100), 1), at(350));
    assert_eq!(next_wake(Some(at(101)), at(100), 1), at(101));
    assert_eq!(next_wake(Some(at(101)), at(100), 0), at(105));
    assert_eq!(next_wake(Some(at(200)), at(100), 0), at(200));
}

#[test]
fn the_association_ceiling_refuses_and_an_ended_one_makes_room() {
    let mut live = Associations::new(RelayLimits {
        max_associations: 1,
        ..RelayLimits::default()
    });
    assert_eq!(live.offer(endpoint(1, 1), false), Offer::Opened);
    assert_eq!(live.offer(endpoint(1, 1), false), Offer::Existing);
    assert_eq!(live.offer(endpoint(2, 1), false), Offer::Refused);
    assert_eq!(live.offer(endpoint(1, 1), true), Offer::Opened);
    assert_eq!(live.len(), 1);
    live.dropped();
    let counts = live.take_counts();
    assert_eq!(
        counts,
        RelayCounts {
            associations_refused: 1,
            datagrams_dropped: 1,
            associations_failed: 0
        }
    );
    assert_eq!(live.take_counts(), RelayCounts::default());
    let mut sum = not_given(3);
    sum.add(counts);
    assert_eq!(
        sum,
        RelayCounts {
            associations_refused: 1,
            datagrams_dropped: 4,
            associations_failed: 1
        }
    );
    assert_eq!(RelayLimits::default().max_associations, 512);
}

#[test]
fn a_datagram_that_does_not_arrive_is_counted_and_ends_nothing() {
    let mut counts = RelayCounts::default();
    let datagram = |addressed, budgeted, delivered| Received::Datagram {
        addressed,
        budgeted,
        delivered,
    };
    assert!(take_received(&mut counts, datagram(true, true, true)));
    assert_eq!(counts.datagrams_dropped, 0);
    assert!(take_received(&mut counts, datagram(false, true, true)));
    assert!(take_received(&mut counts, datagram(true, false, true)));
    assert!(take_received(&mut counts, datagram(true, true, false)));
    assert!(take_received(&mut counts, Received::TooLarge));
    assert_eq!(counts.datagrams_dropped, 4);
    assert!(!take_received(&mut counts, Received::Failed));
    assert_eq!(counts.datagrams_dropped, 4);
}

#[test]
fn counts_are_reported_twice_a_second() {
    assert!(!report_due(Duration::from_millis(499)));
    assert!(report_due(Duration::from_millis(500)));
}
