//! The packet tunnel.

use boreas_core::fields::{field, Field};
use boreas_core::masque::{connect_request, parse_number, properties, Advance};
use boreas_core::{
    decode_ip_datagram, encode_ip_datagram, varint, CloseReason, DatagramFidelity, IpAddr, Ipv4Addr,
    MasqueConfig, MasqueEgress, NatBehavior, SocketAddr, TunnelState, MASQUE_OVERHEAD_BYTES,
};

#[test]
fn the_datagram_codec_round_trips_and_refuses_what_is_not_ours() {
    let packet = [0x45, 0x00, 0x00, 0x1c, 0xde, 0xad];
    for flow_id in [0u64, 63, 64, 16_383, 16_384, 1_073_741_823, 1_073_741_824] {
        let mut encoded = Vec::new();
        encode_ip_datagram(flow_id, &packet, &mut encoded);
        assert_eq!(
            decode_ip_datagram(&encoded, flow_id),
            Some(&packet[..]),
            "flow {flow_id} must round-trip"
        );
        assert_eq!(decode_ip_datagram(&encoded, flow_id.wrapping_add(1)), None);
    }

    let mut other_context = Vec::new();
    varint::put(4, &mut other_context);
    varint::put(1, &mut other_context);
    other_context.extend_from_slice(&packet);
    assert_eq!(decode_ip_datagram(&other_context, 4), None);

    assert_eq!(decode_ip_datagram(&[], 0), None);
    assert_eq!(decode_ip_datagram(&[0x40], 0), None);
    let mut empty_payload = Vec::new();
    varint::put(4, &mut empty_payload);
    varint::put(0, &mut empty_payload);
    assert_eq!(decode_ip_datagram(&empty_payload, 4), None);
}

fn status(text: &str) -> Vec<Field> {
    vec![field("server", "test"), field(":status", text)]
}

#[test]
fn a_tunnel_is_established_only_by_an_accepted_request() {
    let mut tunnel = MasqueEgress::new();
    let mut datagram = Vec::new();
    assert_eq!(tunnel.state(), &TunnelState::Connecting);
    assert_eq!(tunnel.advance(false, false, false), Advance::Wait);
    assert_eq!(tunnel.advance(false, true, false), Advance::Ask);
    assert!(!tunnel.outgoing(b"packet", &mut datagram));
    tunnel.requested(8);
    assert_eq!(tunnel.state(), &TunnelState::Requested { flow_id: 2 });
    assert_eq!(tunnel.incoming(&[2, 0, 1]), None);
    tunnel.answered(&status("200"));
    assert_eq!(tunnel.state(), &TunnelState::Established { flow_id: 2 });
    assert_eq!(tunnel.advance(false, true, true), Advance::Read);
    assert!(tunnel.outgoing(&[9], &mut datagram));
    assert_eq!(datagram, [2, 0, 9]);
    assert_eq!(tunnel.incoming(&datagram), Some([9].as_slice()));
    tunnel.carried();
    assert_eq!(tunnel.fast_path_packets(), 1);
    assert_eq!(tunnel.advance(true, true, true), Advance::Stop);
    assert_eq!(
        tunnel.state(),
        &TunnelState::Closed(CloseReason::ConnectionClosed)
    );

    for (answer, reason) in [
        (status("403"), CloseReason::Refused(403)),
        (status("teapot"), CloseReason::Malformed),
        (vec![field("server", "test")], CloseReason::Malformed),
    ] {
        let mut refused = MasqueEgress::new();
        refused.requested(0);
        refused.answered(&answer);
        assert_eq!(refused.state(), &TunnelState::Closed(reason));
    }

    let mut early = MasqueEgress::new();
    early.answered(&status("200"));
    assert_eq!(early.state(), &TunnelState::Closed(CloseReason::Refused(200)));
    early.ended();
    assert_eq!(
        early.state(),
        &TunnelState::Closed(CloseReason::ConnectionClosed)
    );
}

#[test]
fn a_status_is_a_whole_number_of_sixteen_bits() {
    assert_eq!(parse_number(b"200"), Some(200));
    assert_eq!(parse_number(b"+00200"), Some(200));
    assert_eq!(parse_number(b"65535"), Some(65535));
    assert_eq!(parse_number(b"65536"), None);
    assert_eq!(parse_number(b"99999999999999999999"), None);
    assert_eq!(parse_number(b""), None);
    assert_eq!(parse_number(b"+"), None);
    assert_eq!(parse_number(b"-1"), None);
    assert_eq!(parse_number(b"2x0"), None);
}

#[test]
fn the_request_asks_for_the_configured_protocol() {
    let endpoint = SocketAddr {
        ip: IpAddr::V4(Ipv4Addr::new(192, 0, 2, 1)),
        port: 443,
    };
    let config = MasqueConfig {
        peer: endpoint,
        local: endpoint,
        server_name: "proxy.example".to_owned(),
        authority: "proxy.example".to_owned(),
        path: "/".to_owned(),
        protocol: MasqueConfig::STANDARD_PROTOCOL.to_owned(),
        nat_behavior: NatBehavior::EndpointIndependent,
    };
    assert_eq!(
        connect_request(&config),
        vec![
            field(":method", "CONNECT"),
            field(":protocol", "connect-ip"),
            field(":scheme", "https"),
            field(":authority", "proxy.example"),
            field(":path", "/"),
            field("capsule-protocol", "?1"),
        ]
    );
    assert_eq!(MasqueConfig::CLOUDFLARE_PROTOCOL, "cf-connect-ip");
}

#[test]
fn a_measured_ceiling_leaves_room_for_the_prefix() {
    let path = |writable| properties(NatBehavior::AddressDependent, writable);
    assert_eq!(path(None).max_datagram_size, None);
    assert_eq!(path(Some(1205)).max_datagram_size, Some(1200));
    assert_eq!(path(Some(3)).max_datagram_size, Some(0));
    assert_eq!(path(Some(65541)).max_datagram_size, None);
    assert_eq!(path(None).datagram_fidelity, DatagramFidelity::Native);
    assert_eq!(path(None).overhead_bytes, MASQUE_OVERHEAD_BYTES);
    assert_eq!(MASQUE_OVERHEAD_BYTES, 97);
}
