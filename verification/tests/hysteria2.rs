//! Frames of the QUIC proxy protocol.

use boreas_core::fields::field;
use boreas_core::hysteria2::{
    auth_outcome, auth_request, dial_step, open_request, padding, padding_len, to_padding, Dial,
    MAX_MESSAGE_LEN, MAX_PADDING_LEN, REQUEST_PADDING,
};
use boreas_core::{
    decode_tcp_response, encode_tcp_request, varint, DatagramFidelity, Decoded, DomainName,
    Hysteria2Config, Hysteria2Egress, IpAddr, Ipv4Addr, Ipv6Addr, NatBehavior, ProxyError,
    SocketAddr, Target, TcpResponse,
};

#[test]
fn a_tcp_request_is_the_frame_type_then_two_length_prefixed_fields() {
    let target = Target::Domain {
        host: DomainName::new("example.com").unwrap(),
        port: 443,
    };
    let mut out = Vec::new();
    encode_tcp_request(&target, b"pad", &mut out);
    assert_eq!(
        out,
        [
            &[0x44, 0x01][..],
            &[15][..],
            b"example.com:443",
            &[3][..],
            b"pad",
        ]
        .concat()
    );
}

#[test]
fn an_ipv6_target_is_bracketed_in_the_address_string() {
    let target = Target::Ip(SocketAddr {
        ip: IpAddr::V6(Ipv6Addr::new(0, 0, 0, 0, 0, 0, 0, 1)),
        port: 8080,
    });
    let mut out = Vec::new();
    encode_tcp_request(&target, b"", &mut out);
    assert!(
        out.windows(10).any(|window| window == b"[::1]:8080"),
        "encoded as {out:?}"
    );
}

#[test]
fn every_proper_prefix_of_a_response_is_incomplete() {
    let mut frame = vec![0u8];
    varint::put(2, &mut frame);
    frame.extend_from_slice(b"ok");
    varint::put(4, &mut frame);
    frame.extend_from_slice(b"pppp");

    for cut in 0..frame.len() {
        assert_eq!(
            decode_tcp_response(&frame[..cut]),
            Ok(Decoded::Incomplete),
            "a {cut}-byte prefix decoded"
        );
    }
    assert_eq!(
        decode_tcp_response(&frame),
        Ok(Decoded::Complete {
            value: TcpResponse {
                ok: true,
                message: "ok".to_owned(),
            },
            consumed: frame.len(),
        })
    );

    let mut with_payload = frame.clone();
    with_payload.extend_from_slice(b"SSH-2.0-OpenSSH");
    assert_eq!(
        decode_tcp_response(&with_payload),
        Ok(Decoded::Complete {
            value: TcpResponse {
                ok: true,
                message: "ok".to_owned(),
            },
            consumed: frame.len(),
        })
    );
}

#[test]
fn a_non_zero_status_is_a_refusal_carrying_its_message() {
    let mut frame = vec![1u8];
    varint::put(7, &mut frame);
    frame.extend_from_slice(b"refused");
    varint::put(0, &mut frame);
    let Ok(Decoded::Complete { value, .. }) = decode_tcp_response(&frame) else {
        panic!("the frame is complete");
    };
    assert!(!value.ok);
    assert_eq!(value.message, "refused");
}

#[test]
fn a_length_beyond_the_protocol_ceiling_is_refused_not_allocated() {
    let mut frame = vec![0u8];
    varint::put(MAX_MESSAGE_LEN + 1, &mut frame);
    assert_eq!(decode_tcp_response(&frame), Err(ProxyError::Header));

    let mut frame = vec![0u8];
    varint::put(0, &mut frame);
    varint::put(MAX_PADDING_LEN + 1, &mut frame);
    assert_eq!(decode_tcp_response(&frame), Err(ProxyError::Header));
}

#[test]
fn padding_stays_inside_the_reference_range_and_alphabet() {
    for _ in 0..64 {
        let bytes = padding(REQUEST_PADDING).unwrap();
        assert!(
            (REQUEST_PADDING.0..REQUEST_PADDING.1).contains(&bytes.len()),
            "length {} outside {REQUEST_PADDING:?}",
            bytes.len()
        );
        assert!(bytes.iter().all(|byte| byte.is_ascii_alphanumeric()));
    }
}

#[test]
fn a_dial_is_open_refused_or_read_on() {
    let frame = |status: u8, message: &[u8]| {
        let mut frame = vec![status];
        varint::put(message.len() as u64, &mut frame);
        frame.extend_from_slice(message);
        varint::put(2, &mut frame);
        frame.extend_from_slice(b"pp");
        frame
    };
    assert_eq!(dial_step(b""), Dial::More);
    let mut open = frame(0, b"ok");
    open.extend_from_slice(b"banner");
    assert_eq!(dial_step(&open), Dial::Open(b"banner".to_vec()));
    assert_eq!(
        dial_step(&frame(1, b"no")),
        Dial::Failed(ProxyError::Denied("no".to_owned()))
    );
    assert_eq!(
        dial_step(&frame(0, b"\xff\xfe")),
        Dial::Failed(ProxyError::Header)
    );
}

#[test]
fn a_request_names_a_target_of_bounded_length() {
    let target = Target::Domain {
        host: DomainName::new("example.com").unwrap(),
        port: 443,
    };
    let mut expected = Vec::new();
    encode_tcp_request(&target, b"pad", &mut expected);
    assert_eq!(open_request(&target, b"pad"), Ok(expected));
}

#[test]
fn an_authentication_carries_the_password_and_expects_the_sentinel() {
    assert_eq!(
        auth_request("secret", b"pad"),
        vec![
            field(":method", "POST"),
            field(":scheme", "https"),
            field(":authority", "hysteria"),
            field(":path", "/auth"),
            field("hysteria-auth", "secret"),
            field("hysteria-cc-rx", "0"),
            field("hysteria-padding", "pad"),
        ]
    );
    assert_eq!(auth_outcome(233), Ok(()));
    assert_eq!(auth_outcome(200), Err(ProxyError::AuthFailed));
    assert_eq!(padding_len(&[1, 4], 64, 512), 64 + 260);
    assert_eq!(to_padding(&[0, 25, 26, 51, 52, 61, 62]), b"azAZ09a");
}

#[test]
fn the_egress_offers_streams_only() {
    let egress = Hysteria2Egress::new(Hysteria2Config {
        server: SocketAddr {
            ip: IpAddr::V4(Ipv4Addr::new(192, 0, 2, 1)),
            port: 443,
        },
        server_name: "proxy.example".to_owned(),
        password: "secret".to_owned(),
        nat_behavior: NatBehavior::AddressDependent,
    });
    let offers = egress.capabilities();
    assert_eq!(offers.datagram_fidelity, DatagramFidelity::Absent);
    assert_eq!(offers.nat_behavior, NatBehavior::AddressDependent);
    assert_eq!(Hysteria2Egress::udp_header(), "hysteria-udp");
}
