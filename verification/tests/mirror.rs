//! What a client's first message offers.

use boreas_core::mirror::{
    is_grease, EXTENSION_ALPN, EXTENSION_SIGNATURE_ALGORITHMS, EXTENSION_SUPPORTED_GROUPS,
    HANDSHAKE_CLIENT_HELLO,
};
use boreas_core::{alpn_list, read_hello, ClientProfile, H2Profile, Hello, Offer, Wire};

#[test]
fn the_chrome_profile_renders_chromes_published_fingerprint() {
    assert_eq!(
        H2Profile::chrome().akamai(),
        "1:65536;2:0;4:6291456;6:262144|15663105|0|m,a,s,p"
    );
}

#[test]
fn an_absent_setting_is_omitted_rather_than_defaulted() {
    let profile = H2Profile {
        header_table_size: None,
        max_frame_size: Some(16_384),
        max_concurrent_streams: Some(1000),
        ..H2Profile::chrome()
    };
    assert!(
        profile
            .akamai()
            .starts_with("2:0;3:1000;4:6291456;5:16384;6:262144|")
    );
}

#[test]
fn grease_is_exactly_the_reserved_values() {
    for nibble in 0..16u16 {
        assert!(is_grease(nibble << 12 | 0x0a00 | nibble << 4 | 0x0a));
    }
    for ordinary in [0x0000, 0x000a, 0x0a0b, 0x1a2a, 0x0017, 0x11ec, 0xffff] {
        assert!(!is_grease(ordinary), "{ordinary:#06x}");
    }
}

#[test]
fn a_profile_carries_the_groups_the_client_offered() {
    let profile = profile_from(&[extension(
        EXTENSION_SUPPORTED_GROUPS,
        &vector_u16(&[0x11ec, 29, 23]),
    )]);
    assert_eq!(profile.groups(), ["X25519MLKEM768", "X25519", "P-256"]);
}

#[test]
fn an_unknown_group_is_dropped_not_fatal() {
    let profile = profile_from(&[extension(
        EXTENSION_SUPPORTED_GROUPS,
        &vector_u16(&[0xfefe, 29]),
    )]);
    assert_eq!(profile.groups(), ["X25519"]);
}

#[test]
fn grease_is_stripped_from_signature_algorithms() {
    let profile = profile_from(&[extension(
        EXTENSION_SIGNATURE_ALGORITHMS,
        &vector_u16(&[0x0a0a, 0x0403, 0x0804]),
    )]);
    assert_eq!(profile.sigalgs, [0x0403, 0x0804]);
    assert!(profile.grease, "the hello still counts as GREASE-bearing");
}

#[test]
fn an_unreadable_hello_overrides_nothing() {
    for bytes in [b"".as_slice(), b"\x01", b"\x16\x03\x01", b"not tls at all"] {
        assert!(read_hello(bytes).profile.is_empty(), "{bytes:?}");
    }
}

#[test]
fn the_chrome_profile_offers_the_group_the_default_one_cannot() {
    let chrome = ClientProfile::chrome();
    assert!(!chrome.is_empty());
    assert_eq!(chrome.groups()[0], "X25519MLKEM768");
    assert!(chrome.compresses_certificates());
    assert!(chrome.grease);
}

#[test]
fn an_offer_carries_the_clients_own_list_in_order() {
    let hello = read_hello(&client_hello(&[extension(
        EXTENSION_ALPN,
        &names(&[b"h2", b"http/1.1"]),
    )]));
    assert_eq!(hello.alpn.wires(), [Wire::Http2, Wire::Http1]);
    assert_eq!(hello.alpn.encode(), b"\x02h2\x08http/1.1");
}

#[test]
fn a_protocol_this_cannot_terminate_is_dropped() {
    let hello = read_hello(&client_hello(&[extension(
        EXTENSION_ALPN,
        &names(&[b"h3", b"http/1.1", b"h3"]),
    )]));
    assert_eq!(hello.alpn.wires(), [Wire::Http1]);
}

#[test]
fn a_hello_without_alpn_offers_nothing() {
    let hello = read_hello(&client_hello(&[]));
    assert!(hello.alpn.wires().is_empty());
    assert!(hello.alpn.encode().is_empty());
}

fn names(protocols: &[&[u8]]) -> Vec<u8> {
    let body = alpn_list(protocols);
    let mut out = u16::try_from(body.len()).unwrap().to_be_bytes().to_vec();
    out.extend(body);
    out
}

fn profile_from(extensions: &[Vec<u8>]) -> ClientProfile {
    read_hello(&client_hello(extensions)).profile
}

fn vector_u16(values: &[u16]) -> Vec<u8> {
    let body: Vec<u8> = values.iter().flat_map(|v| v.to_be_bytes()).collect();
    let mut out = u16::try_from(body.len()).unwrap().to_be_bytes().to_vec();
    out.extend(body);
    out
}

fn extension(kind: u16, body: &[u8]) -> Vec<u8> {
    let mut out = kind.to_be_bytes().to_vec();
    out.extend(u16::try_from(body.len()).unwrap().to_be_bytes());
    out.extend(body);
    out
}

fn client_hello(extensions: &[Vec<u8>]) -> Vec<u8> {
    let joined: Vec<u8> = extensions.concat();
    let mut body = vec![0x03, 0x03];
    body.extend([0u8; 32]); // random
    body.push(0); // legacy_session_id
    body.extend(2u16.to_be_bytes()); // cipher_suites
    body.extend([0x13, 0x01]);
    body.extend([1, 0]); // legacy_compression_methods
    body.extend(u16::try_from(joined.len()).unwrap().to_be_bytes());
    body.extend(joined);

    let mut message = vec![HANDSHAKE_CLIENT_HELLO];
    let length = u32::try_from(body.len()).unwrap().to_be_bytes();
    message.extend(&length[1..]);
    message.extend(body);
    message
}

#[test]
fn a_list_of_extensions_that_breaks_off_says_nothing() {
    let mut record = vec![1, 0, 0, 56, 3, 3];
    record.extend_from_slice(&[0; 32]);
    record.extend_from_slice(&[0, 0, 2, 0x13, 1, 1, 0, 0, 13, 0, 0x10, 0, 5, 0, 3, 2]);
    record.extend_from_slice(b"h2");
    record.extend_from_slice(&[0, 0x2b, 0, 5]);
    assert_eq!(read_hello(&record), Hello::default());

    // Without the extension that is cut short, the offer stands.
    record.truncate(record.len() - 4);
    record[3] = 52;
    record[46] = 9;
    assert_eq!(read_hello(&record).alpn.wires(), [Wire::Http2]);
}

#[test]
fn an_offer_keeps_the_order_of_first_mention() {
    let mut body = vec![0, 0];
    for name in [&b"spdy/3"[..], b"http/1.1", b"h2", b"http/1.1", b"h2"] {
        body.push(name.len() as u8);
        body.extend_from_slice(name);
    }
    body[1] = (body.len() - 2) as u8;
    assert_eq!(Offer::read(&body).wires(), [Wire::Http1, Wire::Http2]);
}
