//! Path updates and segment sizes.

use boreas_core::l3::packet::IpEcn;
use boreas_core::wire::checksum;
use boreas_core::{
    clamp_mss, validate_ptb, Duration, IcmpClass, IngressPacket, Instant, InternalEndpoint, IpAddr,
    Ipv4Addr, Ipv6Addr, Mtu, PathUpdate, Transport, UdpFlowTable, MIN_QUIC_MTU,
};

/// The checksum of parts of even length, one after the other.
fn checksum_of(parts: &[&[u8]]) -> u16 {
    checksum(&parts.concat())
}

/// A TCP header whose option region is exactly `options`, wrapped in the
/// smallest IPv4 SYN that carries it. Data offset is derived, so the
/// header always ends precisely where the options do — the alignment that
/// makes an over-read observable.
fn syn_with_options(options: &[u8]) -> Vec<u8> {
    assert!(
        options.len() % 4 == 0,
        "TCP headers are 4-byte aligned"
    );
    let total = 20 + 20 + options.len();
    let mut packet = vec![0u8; total];
    packet[0] = 0x45;
    packet[2..4].copy_from_slice(&(total as u16).to_be_bytes());
    packet[8] = 64;
    packet[9] = 6;
    packet[12..16].copy_from_slice(&[192, 0, 2, 1]);
    packet[16..20].copy_from_slice(&[198, 51, 100, 2]);
    packet[20..22].copy_from_slice(&1234u16.to_be_bytes());
    packet[22..24].copy_from_slice(&443u16.to_be_bytes());
    packet[32] = (((20 + options.len()) / 4) as u8) << 4;
    packet[33] = 0x02; // SYN
    packet[40..].copy_from_slice(options);
    packet
}

#[test]
fn a_malformed_option_list_declines_rather_than_reading_past_it() {
    let hostile: [&[u8]; 6] = [
        &[1, 1, 2, 2],
        &[1, 2, 3, 0xff],
        &[2, 0, 0, 0],
        &[2, 40, 0x05, 0xb4],
        &[0, 2, 4, 0x05],
        &[1, 1, 1, 1],
    ];

    for options in hostile {
        let mut packet = syn_with_options(options);
        let before = packet.clone();
        assert!(
            !clamp_mss(&mut packet, Mtu::new(1500).unwrap()),
            "options {options:?} must not report a clamp"
        );
        assert_eq!(packet, before, "options {options:?} must pass unmodified");
    }
}

#[test]
fn a_well_formed_mss_option_still_clamps_after_any_padding() {
    let variants: [&[u8]; 3] = [
        &[2, 4, 0x05, 0xb4],
        &[1, 1, 2, 4, 0x05, 0xb4, 1, 1],
        &[3, 3, 7, 1, 2, 4, 0x05, 0xb4],
    ];

    for options in variants {
        let mut packet = syn_with_options(options);
        assert!(
            clamp_mss(&mut packet, Mtu::new(1400).unwrap()),
            "options {options:?} carry a clampable MSS"
        );
        let clamped = packet
            .windows(2)
            .any(|pair| u16::from_be_bytes([pair[0], pair[1]]) == 1360);
        assert!(clamped, "options {options:?} must be rewritten to 1360");
    }
}

#[test]
fn forged_ptb_cannot_lower_path_state() {
    let start = Instant { nanos: 1_000_000_000_000 };
    let endpoint = InternalEndpoint {
        address: IpAddr::V4(Ipv4Addr::new(192, 0, 2, 1)),
        port: 12_345,
    };
    let mut flows = UdpFlowTable::new(Duration::from_secs(120), start).unwrap();
    let _ = flows.get_or_insert_with(endpoint, start, || ());

    let quoted = IngressPacket {
        source: endpoint.address,
        destination: IpAddr::V4(Ipv4Addr::new(198, 51, 100, 2)),
        ecn: IpEcn::NotEct,
        transport: Transport::Udp {
            source_port: endpoint.port,
            destination_port: 443,
        },
        payload_at: 0,
        payload_len: 0,
    };

    assert_eq!(validate_ptb(&quoted, 576, &flows), None);
    assert_eq!(validate_ptb(&quoted, MIN_QUIC_MTU - 1, &flows), None);

    let unmatched = IngressPacket {
        source: IpAddr::V4(Ipv4Addr::new(203, 0, 113, 9)),
        ..quoted
    };
    assert_eq!(validate_ptb(&unmatched, 1400, &flows), None);

    let icmp = IngressPacket {
        transport: Transport::Icmp(IcmpClass::Informational),
        ..quoted
    };
    assert_eq!(validate_ptb(&icmp, 1400, &flows), None);

    assert_eq!(
        validate_ptb(&quoted, 1400, &flows),
        Some(PathUpdate { next_hop_mtu: 1400 })
    );
}

fn ipv4_syn(mss: u16) -> Vec<u8> {
    let mut packet = vec![
        0x45, 0x00, 0x00, 44, 0, 0, 0, 0, 64, 6, 0, 0, 192, 0, 2, 1, 198, 51, 100, 2,
    ];
    packet.extend_from_slice(&1234_u16.to_be_bytes());
    packet.extend_from_slice(&443_u16.to_be_bytes());
    packet.extend_from_slice(&[0; 8]); // sequence and acknowledgment
    packet.extend_from_slice(&[0x60, 0x02, 0x04, 0x00, 0, 0, 0, 0]);
    packet.extend_from_slice(&[2, 4]); // MSS option header
    packet.extend_from_slice(&mss.to_be_bytes());
    let tcp_len = 24_u16;
    let sum = checksum_of(&[
        &packet[12..16],
        &packet[16..20],
        &[0, 6],
        &tcp_len.to_be_bytes(),
        &packet[20..44],
    ]);
    packet[36..38].copy_from_slice(&sum.to_be_bytes());
    packet
}

#[test]
fn clamps_ipv4_syn_mss_and_fixes_checksum() {
    let mtu = Mtu::new(1400).unwrap();
    let mut packet = ipv4_syn(1460);
    assert!(clamp_mss(&mut packet, mtu));
    assert_eq!(&packet[42..44], &1360_u16.to_be_bytes());

    let ip = etherparse::Ipv4Slice::from_slice(&packet).unwrap();
    let tcp = etherparse::TcpSlice::from_slice(ip.payload().payload).unwrap();
    assert_eq!(
        tcp.checksum(),
        tcp.calc_checksum_ipv4(
            ip.header().source_addr().octets(),
            ip.header().destination_addr().octets()
        )
        .unwrap(),
        "clamped segment must carry a valid checksum"
    );

    assert!(!clamp_mss(&mut packet, mtu));
    let mut not_syn = ipv4_syn(1460);
    not_syn[33] = 0x10; // ACK only
    assert!(!clamp_mss(&mut not_syn, mtu));
    let mut udp = ipv4_syn(1460);
    udp[9] = 17;
    assert!(!clamp_mss(&mut udp, mtu));
}

#[test]
fn clamps_ipv6_syn_mss() {
    let mut packet = vec![0x60, 0, 0, 0, 0, 24, 6, 64];
    packet.extend_from_slice(&Ipv6Addr::new(0, 0, 0, 0, 0, 0, 0, 1).octets());
    packet.extend_from_slice(&Ipv6Addr::new(0, 0, 0, 0, 0, 0, 0, 0).octets());
    packet.extend_from_slice(&1234_u16.to_be_bytes());
    packet.extend_from_slice(&443_u16.to_be_bytes());
    packet.extend_from_slice(&[0; 8]);
    packet.extend_from_slice(&[0x60, 0x02, 0x04, 0x00, 0, 0, 0, 0]);
    packet.extend_from_slice(&[2, 4]);
    packet.extend_from_slice(&1440_u16.to_be_bytes());
    let sum = checksum_of(&[
        &packet[8..24],
        &packet[24..40],
        &24_u32.to_be_bytes(),
        &[0, 0, 0, 6],
        &packet[40..64],
    ]);
    packet[56..58].copy_from_slice(&sum.to_be_bytes());

    let mtu = Mtu::new(1400).unwrap();
    assert!(clamp_mss(&mut packet, mtu));
    assert_eq!(&packet[62..64], &1340_u16.to_be_bytes());

    let ip = etherparse::Ipv6Slice::from_slice(&packet).unwrap();
    let tcp = etherparse::TcpSlice::from_slice(ip.payload().payload).unwrap();
    assert_eq!(
        tcp.checksum(),
        tcp.calc_checksum_ipv6(
            ip.header().source_addr().octets(),
            ip.header().destination_addr().octets()
        )
        .unwrap(),
        "clamped segment must carry a valid checksum"
    );
}
