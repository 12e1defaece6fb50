//! The device seam, the reactor's clock and its counts.

use boreas_core::host::device::{DeviceError, Rng};
use boreas_core::host::reactor::{Due, Happening, Reaction, Reactor, Read};
use boreas_core::host::shell::{
    forwarded, refused, whole, Counters, FlowEvent, Loss, Provenance, Rcode, ReactorClock,
    ShortWrite, TelemetrySink,
};
use boreas_core::idle;
use boreas_core::live::{Live, Next};
use boreas_core::{
    plan_query, Accepts, Control, DatagramFidelity, Device, Duration, HostPolicy, Instant, InternalEndpoint, IpAddr, Ipv4Addr,
    Mtu, Name, NatBehavior, Panics, PathProperties, QueryPlan, SendOutcome, SimDevice, Telemetry,
};

fn udp_frame() -> Vec<u8> {
    vec![
        0x45, 0x00, 0x00, 0x1c, 0, 0, 0, 0, 64, 17, 0, 0, 192, 0, 2, 1, 198, 51, 100, 2, 0x04,
        0xd2, 0x00, 0x35, 0x00, 0x08, 0, 0,
    ]
}

#[test]
fn loss_and_reorder_are_scripted_and_deterministic() {
    let mut device = SimDevice::new(Mtu::new(1500).unwrap(), 1).with_loss_in(1);
    device.inject(&udp_frame(), 0);
    let mut buf = vec![0u8; 1500];
    assert_eq!(device.recv(&mut buf).unwrap_err(), DeviceError::WouldBlock);

    let packets: Vec<Vec<u8>> = (0u8..4).map(|n| vec![0x45, n]).collect();
    let run = |seed| {
        let mut device = SimDevice::new(Mtu::new(1500).unwrap(), seed).with_reorder_window(3);
        for packet in &packets {
            device.inject(packet, 0);
        }
        let mut order = Vec::new();
        let mut buf = vec![0u8; 1500];
        for tick in 0..8 {
            device.advance_to(tick);
            while let Ok(len) = device.recv(&mut buf) {
                order.push(buf[..len].to_vec());
            }
        }
        order
    };
    let first = run(7);
    let second = run(7);
    assert_eq!(first, second, "same seed, same wire");
    assert_eq!(first.len(), 4);
    assert!(
        first != packets,
        "a reorder window must actually reorder some run"
    );
}

#[test]
fn a_generator_gives_the_published_sequence() {
    let mut rng = Rng(1234567);
    assert_eq!(rng.next(), 6457827717110365317);
    assert_eq!(rng.next(), 3203168211198807973);
}

#[test]
fn a_wire_delivers_what_is_due_and_records_what_is_sent() {
    let mut device = SimDevice::new(Mtu::new(1500).unwrap(), 3);
    device.inject(&[1], 5);
    device.inject(&[2], 2);
    device.inject(&[3], 2);
    assert_eq!(device.next_delivery(), Some(2));
    let mut buf = [0u8; 4];
    assert_eq!(device.recv(&mut buf), Err(DeviceError::WouldBlock));
    device.advance(2);
    assert_eq!(device.recv(&mut buf), Ok(1));
    assert_eq!(buf[0], 2);
    assert_eq!(device.recv(&mut buf), Ok(1));
    assert_eq!(buf[0], 3);
    assert_eq!(device.recv(&mut buf), Err(DeviceError::WouldBlock));
    device.advance(3);
    assert_eq!(device.recv(&mut []), Err(DeviceError::InvalidData));
    assert_eq!(device.next_delivery(), None);

    device.send(&[9, 9]).unwrap();
    assert_eq!(device.sent(), [vec![9, 9]]);
    let mut lossy = SimDevice::new(Mtu::new(1500).unwrap(), 3).with_loss_out(1);
    lossy.send(&[9]).unwrap();
    assert!(lossy.sent().is_empty());
    lossy.set_mtu(Mtu::new(1280).unwrap());
    assert_eq!(lossy.mtu().get(), 1280);
}

#[test]
fn counts_are_reported_once_and_in_order() {
    let endpoint = InternalEndpoint {
        address: IpAddr::V4(Ipv4Addr::new(192, 0, 2, 1)),
        port: 1,
    };
    let mut counters = Counters::new();
    for loss in [Loss::Query, Loss::Datagram, Loss::Packet, Loss::Egress, Loss::Termination] {
        counters.lose(loss);
    }
    assert_eq!(counters.event(FlowEvent::DatagramDropped(endpoint)), None);
    assert_eq!(counters.event(FlowEvent::ReassemblyDiscarded), None);
    assert_eq!(counters.event(FlowEvent::TransmitDropped), None);
    assert_eq!(counters.event(FlowEvent::QuicSteered), None);
    assert_eq!(counters.event(FlowEvent::PathReported(endpoint)), None);
    assert_eq!(
        counters.event(FlowEvent::StreamOpened(endpoint)),
        Some(Telemetry::Event(FlowEvent::StreamOpened(endpoint)))
    );
    assert_eq!(
        counters.flush(2),
        vec![
            Telemetry::DatagramsDropped(2),
            Telemetry::PacketsRejected(1),
            Telemetry::ReassemblyDiscarded(1),
            Telemetry::TransmitsDropped(1),
            Telemetry::EgressRejected(1),
            Telemetry::QueriesDropped(1),
            Telemetry::QuicSteered(1),
            Telemetry::PathsReported(1),
            Telemetry::TerminationDropped(1),
            Telemetry::TasksPanicked(2),
        ]
    );
    assert_eq!(counters.flush(0), Vec::new());
}

#[test]
fn a_lost_observation_is_owned_up_to() {
    let mut sink = TelemetrySink::new();
    assert_eq!(sink.offered(true), None);
    assert_eq!(sink.offered(false), None);
    assert_eq!(sink.offered(false), None);
    assert_eq!(sink.offered(true), Some(2));
    sink.confessed(false);
    assert_eq!(sink.offered(true), Some(2));
    sink.confessed(true);
    assert_eq!(sink.offered(true), None);

    let mut panics = Panics::new();
    panics.ended(true);
    panics.ended(false);
    assert_eq!(panics.take(), 1);
    assert_eq!(panics.take(), 0);
}

#[test]
fn the_reactor_wakes_at_the_first_deadline() {
    let at = |millis: u64| Instant { nanos: millis as u128 * 1_000_000 };
    let mut clock = ReactorClock::new(at(0), Duration::from_millis(250));
    assert_eq!(clock.wake(None, None), at(250));
    assert_eq!(clock.wake(Some(at(10)), Some(at(20))), at(10));
    assert_eq!(clock.wake(Some(at(30)), Some(at(20))), at(20));
    assert!(clock.core_due(Some(at(10)), at(10)));
    assert!(!clock.core_due(Some(at(11)), at(10)));
    assert!(!clock.core_due(None, at(10)));
    assert!(!clock.tick_due(None, at(100)));
    assert!(clock.tick_due(Some(at(100)), at(100)));
    assert_eq!(clock.next_tick, at(350));
    assert!(clock.tick_due(None, at(350)));
    assert!(!clock.flush_due(at(499)));
    assert!(clock.flush_due(at(500)));
    assert_eq!(clock.next_flush, at(1000));
}

#[test]
fn a_short_write_is_an_error() {
    assert_eq!(whole(3, 3), Ok(()));
    let short = ShortWrite {
        written: 2,
        expected: 3,
    };
    assert_eq!(whole(2, 3), Err(short));
    assert_eq!(short.text(), "wrote 2 of 3 packet bytes");
}

#[test]
fn a_blocked_name_never_leaves_the_device() {
    let mut policy = HostPolicy::new();
    policy.extend_from_list("||ads.example^\n");
    let name = Name::parse("x.ads.example").unwrap();
    let QueryPlan::Refuse { rule } = plan_query(&name, &policy) else {
        panic!("the name is blocked");
    };
    let resolution = refused(name, 1, rule);
    assert_eq!(resolution.rcode, Rcode::NameError);
    assert_eq!(resolution.provenance, Provenance::Policy);
    assert_eq!(resolution.rule.map(|rule| rule.text()).as_deref(), Some("ads.example"));

    let other = Name::parse("example").unwrap();
    assert_eq!(plan_query(&other, &policy), QueryPlan::Forward);
    let mut addresses = vec![IpAddr::V4(Ipv4Addr::new(192, 0, 2, 1))];
    let answered = forwarded(other.clone(), 1, Some((Rcode::NoError, 2)), true, &mut addresses);
    assert_eq!((answered.rcode, answered.answers), (Rcode::NoError, 2));
    assert_eq!(addresses.len(), 1);
    let failed = forwarded(other.clone(), 1, None, true, &mut addresses);
    assert_eq!((failed.rcode, failed.answers), (Rcode::ServerFailure, 0));
    assert!(addresses.is_empty());
    // Where nothing steers by them, addresses are not kept.
    addresses.push(IpAddr::V4(Ipv4Addr::new(192, 0, 2, 1)));
    forwarded(other, 1, Some((Rcode::NoError, 1)), false, &mut addresses);
    assert!(addresses.is_empty());
}

#[test]
fn callers_share_one_dial_and_a_failed_one_leaves_nothing() {
    let mut live: Live<u32> = Live::new();
    assert_eq!(live.peek(), None);
    assert_eq!(live.get(true), Next::Dial);
    assert_eq!(live.get(true), Next::Wait);
    live.dialled(None);
    assert_eq!(live.get(true), Next::Dial);
    live.dialled(Some(7));
    assert_eq!(live.peek(), Some(&7));
    assert_eq!(live.get(true), Next::Take);
    assert_eq!(live.get(false), Next::Dial);
}

#[test]
fn silence_ends_a_copy_and_traffic_does_not() {
    assert_eq!(idle::tcp_idle(), Duration::from_secs(2 * 3600 + 4 * 60));
    assert!(idle::ends(5, 5));
    assert!(!idle::ends(5, 6));
    assert_eq!(idle::touch(9), 9);
    assert_eq!(idle::touch(u128::MAX), u64::MAX);
}

fn reactor() -> Reactor {
    Reactor::new(Instant { nanos: 0 }, Duration::from_millis(250))
}

#[test]
fn only_a_broken_read_or_the_owner_ends_the_reactor() {
    let mut reactor = reactor();
    assert_eq!(reactor.happened(Happening::Cancelled), Reaction::Stop);
    assert_eq!(reactor.happened(Happening::Message(None)), Reaction::Stop);
    assert_eq!(
        reactor.happened(Happening::Message(Some(Control::Shutdown))),
        Reaction::Stop
    );
    assert_eq!(
        reactor.happened(Happening::Device(Read::Failed)),
        Reaction::Fail
    );
    assert_eq!(
        reactor.happened(Happening::Network(Read::Failed)),
        Reaction::Fail
    );
    for read in [Read::Taken, Read::Refused, Read::Interrupted] {
        assert_eq!(reactor.happened(Happening::Device(read)), Reaction::Nothing);
        assert_eq!(
            reactor.happened(Happening::Network(read)),
            Reaction::Nothing
        );
    }
    assert_eq!(reactor.happened(Happening::Segment), Reaction::Nothing);
    assert_eq!(reactor.happened(Happening::Timer), Reaction::Nothing);

    let path = PathProperties {
        datagram_fidelity: DatagramFidelity::Native,
        overhead_bytes: 80,
        max_datagram_size: None,
        preserves_ecn: false,
        nat_behavior: NatBehavior::EndpointIndependent,
    };
    assert_eq!(
        reactor.happened(Happening::Message(Some(Control::PathChange(
            Accepts::IpPackets,
            path
        )))),
        Reaction::Change(Accepts::IpPackets, path)
    );
    assert_eq!(
        reactor.happened(Happening::Reloaded(3)),
        Reaction::Report(Telemetry::PolicyReloaded(3))
    );
}

#[test]
fn what_a_reactor_loses_is_in_its_next_report() {
    let mut reactor = reactor();
    reactor.happened(Happening::Relayed(Some(SendOutcome::Buffered)));
    assert_eq!(reactor.flush(0), Vec::new());
    reactor.happened(Happening::Relayed(Some(SendOutcome::Dropped)));
    reactor.happened(Happening::Relayed(None));
    reactor.happened(Happening::Device(Read::Refused));
    reactor.happened(Happening::Network(Read::Refused));
    reactor.offered(Loss::Query, true);
    reactor.offered(Loss::Query, false);
    let name = Name::parse("x.example").unwrap();
    let rule = Name::parse("example").unwrap();
    let resolution = refused(name, 1, rule);
    assert_eq!(
        reactor.happened(Happening::Answered {
            taken: false,
            resolution: resolution.clone()
        }),
        Reaction::Report(Telemetry::Resolved(resolution))
    );
    assert_eq!(
        reactor.flush(1),
        vec![
            Telemetry::DatagramsDropped(1),
            Telemetry::PacketsRejected(3),
            Telemetry::EgressRejected(1),
            Telemetry::QueriesDropped(1),
            Telemetry::TasksPanicked(1),
        ]
    );
    assert_eq!(reactor.flush(0), Vec::new());
    assert_eq!(reactor.event(FlowEvent::QuicSteered), None);
    assert_eq!(reactor.flush(0), vec![Telemetry::QuicSteered(1)]);
}

#[test]
fn what_is_due_starts_its_interval_again() {
    let mut reactor = reactor();
    let at = |millis: u128| Instant {
        nanos: millis * 1_000_000,
    };
    let nothing = Due {
        core: false,
        tick: false,
        flush: false,
    };
    assert_eq!(reactor.due(Some(at(200)), None, at(100)), nothing);
    assert_eq!(
        reactor.due(Some(at(200)), None, at(250)),
        Due {
            core: true,
            tick: true,
            flush: false
        }
    );
    assert_eq!(reactor.clock.next_tick, at(500));
    assert_eq!(
        reactor.due(None, Some(at(300)), at(300)),
        Due {
            core: false,
            tick: true,
            flush: false
        }
    );
    assert_eq!(
        reactor.due(None, None, at(500)),
        Due {
            core: false,
            tick: false,
            flush: true
        }
    );
    assert_eq!(reactor.clock.next_flush, at(1000));
}

#[test]
fn reads_deliver_what_is_due_in_order_and_each_once() {
    let mut device = SimDevice::new(Mtu::new(1500).unwrap(), 7);
    device.inject(b"late", 9);
    device.inject(b"first", 3);
    device.inject(b"second", 3);
    assert_eq!(device.next_delivery(), Some(3));
    let mut buf = [0u8; 16];
    device.advance_to(2);
    assert_eq!(device.recv(&mut buf), Err(DeviceError::WouldBlock));
    device.advance_to(3);
    assert_eq!(device.recv(&mut buf), Ok(5));
    assert_eq!(&buf[..5], b"first");
    assert_eq!(device.recv(&mut buf), Ok(6));
    assert_eq!(&buf[..6], b"second");
    assert_eq!(device.recv(&mut buf), Err(DeviceError::WouldBlock));
    device.advance_to(9);
    assert_eq!(device.recv(&mut buf), Ok(4));
    assert_eq!(device.next_delivery(), None);
    assert!(device.sent().is_empty());
}

#[test]
fn equal_seeds_give_equal_jitter_within_the_window() {
    let run = |seed: u64| {
        let mut device =
            SimDevice::new(Mtu::new(1500).unwrap(), seed).with_reorder_window(5);
        for n in 0..8u8 {
            device.inject(&[n], 10);
        }
        let mut buf = [0u8; 4];
        let mut got = Vec::new();
        for tick in 0..=15u64 {
            device.advance_to(tick);
            while device.recv(&mut buf) == Ok(1) {
                assert!(tick >= 10);
                got.push((tick, buf[0]));
            }
        }
        got
    };
    let got = run(42);
    assert_eq!(got, run(42));
    let mut packets: Vec<u8> = got.iter().map(|(_, n)| *n).collect();
    packets.sort_unstable();
    assert_eq!(packets, (0..8).collect::<Vec<u8>>());
}
