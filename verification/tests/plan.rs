//! Flow planning and ingress routing.

use boreas_core::l3::packet::IpEcn;
use boreas_core::{
    plan_flow, replan, route_ingress, Accepts, Backstop, ChainError, DatagramFidelity, DnsPolicy,
    FilterPolicy, FlowPlan, IngressAction, IngressPacket, Inspection, IpAddr, Ipv4Addr, Mtu,
    MtuError, NatBehavior, PathProperties, PlanError, QuicBudget, QuicPolicy, Replan,
    SteeringReason, Transport, TransportPath, DNS_PORT, HTTPS_PORT, MIN_IPV6_MTU, MIN_QUIC_MTU,
};

fn egress(fidelity: DatagramFidelity, overhead_bytes: u16) -> PathProperties {
    PathProperties {
        datagram_fidelity: fidelity,
        overhead_bytes,
        max_datagram_size: None,
        preserves_ecn: true,
        nat_behavior: NatBehavior::EndpointIndependent,
    }
}

fn mtu(bytes: u16) -> Mtu {
    Mtu::new(bytes).expect("test MTU is valid")
}

const FIDELITIES: [DatagramFidelity; 3] = [
    DatagramFidelity::Absent,
    DatagramFidelity::Emulated,
    DatagramFidelity::Native,
];
const NAT_BEHAVIORS: [NatBehavior; 3] = [
    NatBehavior::AddressAndPortDependent,
    NatBehavior::AddressDependent,
    NatBehavior::EndpointIndependent,
];
const MTUS: [u16; 6] = [1280, 1300, 1400, 1500, 4000, u16::MAX];
const OVERHEADS: [u16; 4] = [0, 40, 60, 1000];

#[test]
fn chain_fidelity_is_monotone_non_increasing() {
    for left in FIDELITIES {
        for right in FIDELITIES {
            for left_nat in NAT_BEHAVIORS {
                for right_nat in NAT_BEHAVIORS {
                    let first = PathProperties {
                        nat_behavior: left_nat,
                        ..egress(left, 0)
                    };
                    let second = PathProperties {
                        nat_behavior: right_nat,
                        ..egress(right, 0)
                    };
                    let chained = first.chain(second).unwrap();
                    assert_eq!(chained.datagram_fidelity, left.min(right));
                    assert_eq!(chained.nat_behavior, left_nat.min(right_nat));
                }
            }
        }
    }
}

#[test]
fn plan_flow_never_passes_quic_below_native_or_below_floor() {
    for fidelity in FIDELITIES {
        for &overhead in &OVERHEADS {
            for &path in &MTUS {
                for accepts in [Accepts::IpPackets, Accepts::Flows] {
                    for max_datagram_size in
                        [None, Some(1199), Some(1200), Some(1279), Some(1500)]
                    {
                        let properties = PathProperties {
                            max_datagram_size,
                            ..egress(fidelity, overhead)
                        };
                        let Ok(plan) = plan_flow(
                            FilterPolicy::PassThrough,
                            Inspection::Excluded,
                            accepts,
                            properties,
                            mtu(path),
                        ) else {
                            continue; // This path cannot be admitted.
                        };
                        if fidelity != DatagramFidelity::Native {
                            assert_ne!(
                                plan.quic,
                                QuicPolicy::PassThrough,
                                "fidelity {fidelity:?} must steer"
                            );
                            continue;
                        }
                        let budget = match plan.transport {
                            TransportPath::PacketFastPath { inner_mtu } => {
                                Some(inner_mtu.get())
                            }
                            TransportPath::LocalTermination => max_datagram_size,
                        };
                        let fits = budget.is_some_and(|bytes| bytes >= MIN_QUIC_MTU);
                        assert_eq!(
                            plan.quic == QuicPolicy::PassThrough,
                            fits,
                            "budget {budget:?} over {accepts:?}: QUIC passes exactly when \
                             RFC 9000's floor is met"
                        );
                    }
                }
            }
        }
    }
}

#[test]
fn a_datagram_ceiling_between_the_two_floors_still_carries_quic() {
    for bytes in [MIN_QUIC_MTU, 1234, MIN_IPV6_MTU - 1] {
        assert!(QuicBudget::new(bytes).is_some(), "{bytes} clears RFC 9000");
        assert!(Mtu::new(bytes).is_err(), "{bytes} is below RFC 8200");
        let plan = plan_flow(
            FilterPolicy::PassThrough,
            Inspection::Excluded,
            Accepts::Flows,
            PathProperties {
                max_datagram_size: Some(bytes),
                ..egress(DatagramFidelity::Native, 0)
            },
            mtu(1500),
        )
        .unwrap();
        assert_eq!(plan.quic, QuicPolicy::PassThrough, "{bytes} must pass");
    }
    assert!(QuicBudget::new(MIN_QUIC_MTU - 1).is_none());
}

#[test]
fn every_native_to_emulated_transition_resteers() {
    for fidelity in FIDELITIES {
        let live = plan_flow(
            FilterPolicy::PassThrough,
            Inspection::Excluded,
            Accepts::Flows,
            PathProperties {
                max_datagram_size: Some(1500),
                ..egress(DatagramFidelity::Native, 0)
            },
            mtu(1500),
        )
        .unwrap();
        let next = PathProperties {
            max_datagram_size: Some(1500),
            ..egress(fidelity, 0)
        };
        let result = replan(
            &live,
            FilterPolicy::PassThrough,
            Inspection::Excluded,
            Accepts::Flows,
            next,
            mtu(1500),
        );
        if fidelity == DatagramFidelity::Native {
            assert_eq!(result, Ok(Replan::Unchanged));
        } else {
            assert_eq!(
                result,
                Ok(Replan::Resteer {
                    reason: SteeringReason::DatagramFidelity,
                    plan: plan_flow(
                        FilterPolicy::PassThrough,
                        Inspection::Excluded,
                        Accepts::Flows,
                        next,
                        mtu(1500),
                    )
                    .unwrap(),
                }),
                "Native to {fidelity:?} must re-steer, never drop"
            );
        }
    }
}

#[test]
fn replan_tears_down_only_unsurvivable_changes() {
    let packet_plan = plan_flow(
        FilterPolicy::PassThrough,
        Inspection::Excluded,
        Accepts::IpPackets,
        egress(DatagramFidelity::Native, 60),
        mtu(1500),
    )
    .unwrap();

    assert_eq!(
        replan(
            &packet_plan,
            FilterPolicy::PassThrough,
            Inspection::Excluded,
            Accepts::Flows,
            egress(DatagramFidelity::Native, 60),
            mtu(1500),
        ),
        Ok(Replan::Teardown)
    );

    assert_eq!(
        replan(
            &packet_plan,
            FilterPolicy::PassThrough,
            Inspection::Excluded,
            Accepts::IpPackets,
            egress(DatagramFidelity::Native, 300),
            mtu(1500),
        ),
        Err(PlanError::InnerMtu(MtuError::BelowMinimum(1200)))
    );

    assert_eq!(
        replan(
            &packet_plan,
            FilterPolicy::PassThrough,
            Inspection::Excluded,
            Accepts::IpPackets,
            egress(DatagramFidelity::Native, 100),
            mtu(1500),
        ),
        Ok(Replan::Unchanged)
    );
}

#[test]
fn fragments_never_reach_l4_admission() {
    let native_l3_plan = plan_flow(
        FilterPolicy::PassThrough,
        Inspection::Excluded,
        Accepts::IpPackets,
        egress(DatagramFidelity::Native, 0),
        mtu(1500),
    )
    .unwrap();
    let ipv4_udp = [
        0x45, 0x03, 0x00, 0x1c, 0, 0, 0, 0, 64, 17, 0, 0, 192, 0, 2, 1, 198, 51, 100, 2, 0x04,
        0xd2, 0x00, 0x35, 0x00, 0x08, 0, 0,
    ];

    for offset_units in [0_u16, 1, 8, 256, 0x1fff] {
        for more_fragments in [true, false] {
            let mut packet = ipv4_udp;
                if offset_units == 0 && !more_fragments {
                continue; // This is an unfragmented packet.
            }
            let flags_offset = offset_units | if more_fragments { 0x2000 } else { 0 };
            packet[6..8].copy_from_slice(&flags_offset.to_be_bytes());
            let parsed = IngressPacket::parse(&packet).expect("wire-valid packet");
            assert_eq!(parsed.transport, Transport::Fragment);
            assert_eq!(
                route_ingress(
                    parsed.transport,
                    native_l3_plan,
                    DnsPolicy::Forward,
                    Backstop::Lapsed
                ),
                IngressAction::Reassemble,
                "offset {offset_units}, more_fragments {more_fragments}"
            );
        }
    }

    let mut ipv6_fragment = [0_u8; 56];
    ipv6_fragment[0] = 0x60;
    ipv6_fragment[4..6].copy_from_slice(&16_u16.to_be_bytes());
    ipv6_fragment[6] = 44;
    ipv6_fragment[7] = 64;
    ipv6_fragment[40] = 6; // Next header is TCP.
    ipv6_fragment[43] = 0x01; // Offset zero, more fragments.
    let parsed = IngressPacket::parse(&ipv6_fragment).expect("wire-valid packet");
    assert_eq!(parsed.transport, Transport::Fragment);
    assert_eq!(
        route_ingress(
            parsed.transport,
            native_l3_plan,
            DnsPolicy::Forward,
            Backstop::Lapsed
        ),
        IngressAction::Reassemble
    );
}

#[test]
fn the_backstop_refuses_quic_only_outward_and_only_while_open() {
    let plan = plan_flow(
        FilterPolicy::PassThrough,
        Inspection::Excluded,
        Accepts::IpPackets,
        egress(DatagramFidelity::Native, 0),
        mtu(1500),
    )
    .unwrap();
    let quic = Transport::Udp {
        source_port: 50_000,
        destination_port: MIN_QUIC_MTU.wrapping_sub(757), // 443
    };
    assert_eq!(
        quic,
        Transport::Udp {
            source_port: 50_000,
            destination_port: HTTPS_PORT
        }
    );

    assert_eq!(
        route_ingress(quic, plan, DnsPolicy::Intercept, Backstop::Active),
        IngressAction::DropSteered
    );
    for dns in [DnsPolicy::Intercept, DnsPolicy::Forward] {
        assert_eq!(
            route_ingress(quic, plan, dns, Backstop::Lapsed),
            IngressAction::ForwardPacket(plan)
        );
    }
    let https = Transport::Tcp {
        source_port: 50_000,
        destination_port: HTTPS_PORT,
    };
    assert_eq!(
        route_ingress(https, plan, DnsPolicy::Intercept, Backstop::Active),
        IngressAction::ForwardPacket(plan)
    );
    let query = Transport::Udp {
        source_port: 50_000,
        destination_port: DNS_PORT,
    };
    assert_eq!(
        route_ingress(query, plan, DnsPolicy::Intercept, Backstop::Active),
        IngressAction::ResolveDns
    );
}

#[test]
fn mtu_rejects_paths_that_cannot_carry_ipv6() {
    assert_eq!(Mtu::new(0), Err(MtuError::BelowMinimum(0)));
    assert_eq!(Mtu::new(68), Err(MtuError::BelowMinimum(68)));
    assert_eq!(
        Mtu::new(MIN_IPV6_MTU - 1),
        Err(MtuError::BelowMinimum(MIN_IPV6_MTU - 1))
    );
    assert_eq!(Mtu::new(MIN_IPV6_MTU).map(Mtu::get), Ok(MIN_IPV6_MTU));

    assert!(MIN_IPV6_MTU > MIN_QUIC_MTU);
    assert!(mtu(MIN_IPV6_MTU).admits_quic());
}

#[test]
fn flow_planning_enforces_fast_path_and_quic_invariants() {
    let native_l3 = egress(DatagramFidelity::Native, 60);
    assert_eq!(
        plan_flow(
            FilterPolicy::PassThrough,
            Inspection::Excluded,
            Accepts::IpPackets,
            native_l3,
            mtu(1500)
        ),
        Ok(FlowPlan {
            transport: TransportPath::PacketFastPath {
                inner_mtu: mtu(1440)
            },
            quic: QuicPolicy::PassThrough,
        })
    );

    assert_eq!(
        plan_flow(
            FilterPolicy::InspectHttp,
            Inspection::Candidate,
            Accepts::IpPackets,
            native_l3,
            mtu(1500)
        ),
        Ok(FlowPlan {
            transport: TransportPath::LocalTermination,
            quic: QuicPolicy::SteerToHttp2(SteeringReason::InspectionRequired),
        })
    );
    assert_eq!(
        plan_flow(
            FilterPolicy::InspectHttp,
            Inspection::Excluded,
            Accepts::IpPackets,
            native_l3,
            mtu(1500)
        ),
        Ok(FlowPlan {
            transport: TransportPath::PacketFastPath {
                inner_mtu: mtu(1440)
            },
            quic: QuicPolicy::PassThrough,
        }),
        "a flow nobody asked to inspect must not pay for inspection"
    );
    assert_eq!(
        plan_flow(
            FilterPolicy::PassThrough,
            Inspection::Excluded,
            Accepts::Flows,
            egress(DatagramFidelity::Emulated, 60),
            mtu(1500),
        )
        .map(|plan| (plan.transport, plan.quic)),
        Ok((
            TransportPath::LocalTermination,
            QuicPolicy::SteerToHttp2(SteeringReason::DatagramFidelity),
        ))
    );

    let native_l4 = egress(DatagramFidelity::Native, 0);
    assert_eq!(
        plan_flow(
            FilterPolicy::PassThrough,
            Inspection::Excluded,
            Accepts::Flows,
            native_l4,
            mtu(1500)
        )
        .map(|plan| plan.quic),
        Ok(QuicPolicy::SteerToHttp2(SteeringReason::MtuBelowMinimum)),
        "an undeclared datagram ceiling cannot be shown to clear the floor"
    );
    assert_eq!(
        plan_flow(
            FilterPolicy::PassThrough,
            Inspection::Excluded,
            Accepts::Flows,
            PathProperties {
                max_datagram_size: Some(1000),
                ..native_l4
            },
            mtu(1500),
        )
        .map(|plan| plan.quic),
        Ok(QuicPolicy::SteerToHttp2(SteeringReason::MtuBelowMinimum))
    );
    assert_eq!(
        plan_flow(
            FilterPolicy::PassThrough,
            Inspection::Excluded,
            Accepts::Flows,
            PathProperties {
                max_datagram_size: Some(1400),
                ..native_l4
            },
            mtu(1500),
        )
        .map(|plan| plan.quic),
        Ok(QuicPolicy::PassThrough)
    );

    assert_eq!(
        plan_flow(
            FilterPolicy::PassThrough,
            Inspection::Excluded,
            Accepts::IpPackets,
            native_l3,
            mtu(1300)
        ),
        Err(PlanError::InnerMtu(MtuError::BelowMinimum(1240)))
    );
    assert_eq!(
        plan_flow(
            FilterPolicy::PassThrough,
            Inspection::Excluded,
            Accepts::IpPackets,
            egress(DatagramFidelity::Native, 60_000),
            mtu(1500),
        ),
        Err(PlanError::OverheadExceedsPathMtu)
    );
}

#[test]
fn errors_render_without_the_debug_formatter() {
    assert_eq!(
        PlanError::InnerMtu(MtuError::BelowMinimum(1240)).message(),
        "inner MTU 1240 is below the 1280-byte IPv6 minimum"
    );
    assert_eq!(
        PlanError::OverheadExceedsPathMtu.message(),
        "egress overhead exceeds the path MTU"
    );
    assert_eq!(
        ChainError::MixedLayers.message(),
        "chained egresses accept different layers"
    );
    assert!(
        PlanError::InnerMtu(MtuError::BelowMinimum(1240))
            .source()
            .is_some_and(|source| source.message().contains("below the 1280-byte"))
    );
}

#[test]
fn chaining_uses_the_weakest_property() {
    let first = PathProperties {
        max_datagram_size: Some(1400),
        ..egress(DatagramFidelity::Native, 40)
    };
    let second = PathProperties {
        max_datagram_size: Some(1300),
        preserves_ecn: false,
        ..egress(DatagramFidelity::Emulated, 20)
    };

    assert_eq!(
        first.chain(second),
        Ok(PathProperties {
            datagram_fidelity: DatagramFidelity::Emulated,
            overhead_bytes: 60,
            max_datagram_size: Some(1300),
            preserves_ecn: false,
            nat_behavior: NatBehavior::EndpointIndependent,
        })
    );

}

#[test]
fn ingress_routing_keeps_effects_explicit() {
    let packet = IngressPacket {
        source: IpAddr::V4(Ipv4Addr::new(192, 0, 2, 1)),
        destination: IpAddr::V4(Ipv4Addr::new(198, 51, 100, 2)),
        ecn: IpEcn::NotEct,
        transport: Transport::Udp {
            source_port: 1234,
            destination_port: 443,
        },
        payload_at: 0,
        payload_len: 0,
    };
    let native_l3 = egress(DatagramFidelity::Native, 60);
    let packet_plan = plan_flow(
        FilterPolicy::PassThrough,
        Inspection::Excluded,
        Accepts::IpPackets,
        native_l3,
        mtu(1500),
    )
    .unwrap();
    let flow_plan = plan_flow(
        FilterPolicy::PassThrough,
        Inspection::Excluded,
        Accepts::Flows,
        native_l3,
        mtu(1500),
    )
    .unwrap();

    assert!(matches!(
        route_ingress(
            packet.transport,
            packet_plan,
            DnsPolicy::Forward,
            Backstop::Lapsed
        ),
        IngressAction::ForwardPacket(_)
    ));
    assert!(matches!(
        route_ingress(
            packet.transport,
            flow_plan,
            DnsPolicy::Forward,
            Backstop::Lapsed
        ),
        IngressAction::OpenDatagram(_)
    ));

    assert_eq!(
        route_ingress(
            Transport::Fragment,
            flow_plan,
            DnsPolicy::Forward,
            Backstop::Lapsed
        ),
        IngressAction::Reassemble
    );
    assert_eq!(
        route_ingress(
            Transport::Other,
            packet_plan,
            DnsPolicy::Forward,
            Backstop::Lapsed
        ),
        IngressAction::DropUnsupported
    );
}
