//! Reading packets off the wire.

use boreas_core::l3::packet::IpEcn;
use boreas_core::l3::report::write_time_exceeded;
use boreas_core::{
    forbids_fragmentation, udp_datagram_len, write_too_big, write_udp, IcmpClass, IngressPacket,
    InternalEndpoint, IpAddr, Ipv4Addr, Ipv6Addr, PacketError, Transport, WriteError,
};

#[test]
fn parses_complete_packets_and_quarantines_fragments() {
    let ipv4_udp = [
        0x45, 0x03, 0x00, 0x1c, 0, 0, 0, 0, 64, 17, 0, 0, 192, 0, 2, 1, 198, 51, 100, 2, 0x04,
        0xd2, 0x00, 0x35, 0x00, 0x08, 0, 0,
    ];
    assert_eq!(
        IngressPacket::parse(&ipv4_udp).map(|packet| (
            packet.source,
            packet.destination,
            packet.ecn,
            packet.transport,
        )),
        Ok((
            IpAddr::V4(Ipv4Addr::new(192, 0, 2, 1)),
            IpAddr::V4(Ipv4Addr::new(198, 51, 100, 2)),
            IpEcn::CongestionExperienced,
            Transport::Udp {
                source_port: 1234,
                destination_port: 53,
            },
        ))
    );

    let mut ipv4_fragment = ipv4_udp;
    ipv4_fragment[6] = 0x20;
    assert_eq!(
        IngressPacket::parse(&ipv4_fragment).map(|packet| packet.transport),
        Ok(Transport::Fragment)
    );

    let mut ipv6_tcp = [0_u8; 60];
    ipv6_tcp[0] = 0x60;
    ipv6_tcp[4..6].copy_from_slice(&20_u16.to_be_bytes());
    ipv6_tcp[6] = 6;
    ipv6_tcp[7] = 64;
    ipv6_tcp[8..24].copy_from_slice(&Ipv6Addr::new(0, 0, 0, 0, 0, 0, 0, 1).octets());
    ipv6_tcp[24..40].copy_from_slice(&Ipv6Addr::new(0, 0, 0, 0, 0, 0, 0, 0).octets());
    ipv6_tcp[40..42].copy_from_slice(&443_u16.to_be_bytes());
    ipv6_tcp[42..44].copy_from_slice(&50_000_u16.to_be_bytes());
    ipv6_tcp[52] = 0x50;
    assert_eq!(
        IngressPacket::parse(&ipv6_tcp).map(|packet| packet.transport),
        Ok(Transport::Tcp {
            source_port: 443,
            destination_port: 50_000,
        })
    );

    assert!(matches!(
        IngressPacket::parse(&[0x45]),
        Err(PacketError::Malformed(_))
    ));
}

#[test]
fn a_header_that_is_not_whole_forbids_nothing() {
    let mut v6 = [0u8; 40];
    v6[0] = 0x60;
    assert!(forbids_fragmentation(&v6));
    assert!(!forbids_fragmentation(&v6[..39]));
    assert!(!forbids_fragmentation(&[0x60]));
    assert!(!forbids_fragmentation(&[]));
    let mut v4 = [0u8; 20];
    v4[0] = 0x45;
    assert!(!forbids_fragmentation(&v4));
    v4[6] = 0x40;
    assert!(forbids_fragmentation(&v4));
    assert!(!forbids_fragmentation(&v4[..19]));
    // Four words are no header, and six are not there.
    v4[0] = 0x44;
    assert!(!forbids_fragmentation(&v4));
    v4[0] = 0x46;
    assert!(!forbids_fragmentation(&v4));
}

#[test]
fn the_largest_datagrams_read_back_as_written() {
    let end = |last: u16, port: u16| InternalEndpoint {
        address: IpAddr::V6(Ipv6Addr::new(0x2001, 0xdb8, 0, 0, 0, 0, 0, last)),
        port,
    };
    let payload = vec![7u8; 65_527];
    let (source, destination) = (end(1, 53), end(2, 4096));
    let len = udp_datagram_len(source.address, payload.len());
    let mut out = vec![0u8; len + 3];
    assert_eq!(write_udp(&mut out, source, destination, &payload), Ok(len));
    let read = IngressPacket::parse(&out[..len]).unwrap();
    assert_eq!(read.source, source.address);
    assert_eq!(read.destination, destination.address);
    assert_eq!(
        read.transport,
        Transport::Udp {
            source_port: 53,
            destination_port: 4096
        }
    );
    assert_eq!(read.payload(&out[..len]), Some(payload.as_slice()));
}

#[test]
fn a_report_needs_room_for_its_headers_and_the_quote() {
    let quoted = [
        0x45, 0x03, 0x00, 0x1c, 0, 0, 0, 0, 64, 17, 0, 0, 192, 0, 2, 1, 198, 51, 100, 2, 0x04,
        0xd2, 0x00, 0x35, 0x00, 0x08, 0, 0,
    ];
    let size = 28 + quoted.len();
    let mut out = vec![0xeeu8; size + 2];
    assert_eq!(
        write_too_big(&mut out[..size - 1], &quoted, 1400),
        Err(WriteError::OutputTooSmall)
    );
    assert!(out.iter().all(|byte| *byte == 0xee));
    assert_eq!(write_too_big(&mut out, &quoted, 1400), Ok(size));
    assert_eq!(out[20..22], [3, 4]);
    assert_eq!(out[26..28], 1400u16.to_be_bytes());
    assert_eq!(out[28..size], quoted);
    assert_eq!(out[size..], [0xee, 0xee]);
    let read = IngressPacket::parse(&out[..size]).unwrap();
    assert_eq!(read.source, IpAddr::V4(Ipv4Addr::new(198, 51, 100, 2)));
    assert_eq!(read.destination, IpAddr::V4(Ipv4Addr::new(192, 0, 2, 1)));
    assert_eq!(read.transport, Transport::Icmp(IcmpClass::Error));

    let mut v6 = [0u8; 48];
    v6[0] = 0x60;
    v6[5] = 8;
    v6[6] = 17;
    v6[45] = 8;
    let size = 48 + v6.len();
    let mut out = vec![0u8; size];
    assert_eq!(write_time_exceeded(&mut out, &v6), Ok(size));
    assert_eq!(out[40..42], [3, 0]);
    assert_eq!(
        IngressPacket::parse(&out).unwrap().transport,
        Transport::Icmp(IcmpClass::Error)
    );
    assert_eq!(
        write_time_exceeded(&mut out, &[0x45]),
        Err(WriteError::Unquotable)
    );
}
