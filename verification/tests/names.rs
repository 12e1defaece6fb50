//! Names, addresses as text, and variable-length integers.

use boreas_core::literal::{parse_address, push_endpoint};
use boreas_core::name::DomainError;
use boreas_core::{varint, DomainName, IpAddr, Ipv4Addr, Ipv6Addr, Name};

fn read(text: &str) -> Option<IpAddr> {
    let chars: Vec<char> = text.chars().collect();
    parse_address(&chars)
}

fn write(address: IpAddr, port: u16) -> String {
    let mut text = String::new();
    push_endpoint(&mut text, address, port);
    text
}

fn v4(a: u8, b: u8, c: u8, d: u8) -> IpAddr {
    IpAddr::V4(Ipv4Addr::new(a, b, c, d))
}

fn v6(g: [u16; 8]) -> IpAddr {
    IpAddr::V6(Ipv6Addr::new(g[0], g[1], g[2], g[3], g[4], g[5], g[6], g[7]))
}

#[test]
fn addresses_are_read_in_either_notation() {
    for (text, address) in [
        ("0.0.0.0", v4(0, 0, 0, 0)),
        ("127.0.0.1", v4(127, 0, 0, 1)),
        ("255.255.255.255", v4(255, 255, 255, 255)),
        ("::", v6([0; 8])),
        ("::1", v6([0, 0, 0, 0, 0, 0, 0, 1])),
        ("1::", v6([1, 0, 0, 0, 0, 0, 0, 0])),
        ("1::2", v6([1, 0, 0, 0, 0, 0, 0, 2])),
        ("1:2:3:4:5:6:7:8", v6([1, 2, 3, 4, 5, 6, 7, 8])),
        ("1:2:3:4:5:6:7::", v6([1, 2, 3, 4, 5, 6, 7, 0])),
        ("::2:3:4:5:6:7:8", v6([0, 2, 3, 4, 5, 6, 7, 8])),
        ("::ffff:192.0.2.1", v6([0, 0, 0, 0, 0, 0xffff, 0xc000, 0x0201])),
        ("1:2:3:4:5:6:192.0.2.1", v6([1, 2, 3, 4, 5, 6, 0xc000, 0x0201])),
        ("ABCD::ef", v6([0xabcd, 0, 0, 0, 0, 0, 0, 0xef])),
    ] {
        assert_eq!(read(text), Some(address), "{text:?}");
    }
    for text in [
        "256.0.0.1",
        "01.2.3.4",
        "1.2.3",
        "1.2.3.4.5",
        "1.2.3.",
        "",
        "1:2:3:4:5:6:7",
        "1:2:3:4:5:6:7:8:9",
        "1:2:3:4::5:6:7:8",
        "1::2::3",
        ":::",
        "1:::2",
        ":1",
        "1:",
        "1:2:3:4:5:6:7:192.0.2.1",
        "192.0.2.1::",
        "::192.0.2",
        "12345::",
        "g::",
        "fe80::1%eth0",
        "::1 ",
        "1.2.3.4:80",
        "::1.2.3.4:5",
    ] {
        assert_eq!(read(text), None, "{text:?}");
    }
}

#[test]
fn endpoints_elide_the_first_longest_run_of_zeros() {
    for (address, text) in [
        (v4(192, 0, 2, 1), "192.0.2.1:8080"),
        (v6([0; 8]), "[::]:8080"),
        (v6([0, 0, 0, 0, 0, 0, 0, 1]), "[::1]:8080"),
        (v6([1, 0, 0, 2, 0, 0, 0, 3]), "[1:0:0:2::3]:8080"),
        (v6([1, 0, 0, 2, 0, 0, 3, 4]), "[1::2:0:0:3:4]:8080"),
        (v6([1, 0, 2, 3, 4, 5, 6, 7]), "[1:0:2:3:4:5:6:7]:8080"),
        (
            v6([0x2001, 0xdb8, 0, 0, 0, 0xff00, 0x42, 0x8329]),
            "[2001:db8::ff00:42:8329]:8080",
        ),
        (
            v6([0, 0, 0, 0, 0, 0xffff, 0xc000, 0x0201]),
            "[::ffff:192.0.2.1]:8080",
        ),
        (v6([1, 2, 3, 4, 5, 6, 7, 8]), "[1:2:3:4:5:6:7:8]:8080"),
    ] {
        assert_eq!(write(address, 8080), text);
    }
}

#[test]
fn a_name_is_lower_case_labels_of_bounded_length() {
    let text = |name: &str| Name::parse(name).map(|n| n.text());
    assert_eq!(text("Example.COM."), Some("example.com".to_owned()));
    assert_eq!(text(""), Some(String::new()));
    assert!(Name::parse(".").unwrap().is_root());
    assert_eq!(text(".."), None);
    assert_eq!(text("a..b"), None);
    assert_eq!(text(".a"), None);
    assert!(Name::parse(&"a".repeat(63)).is_some());
    assert_eq!(text(&"a".repeat(64)), None);
    assert_eq!(text(&"é".repeat(32)), None);
    let long = ["a".repeat(63), "b".repeat(63), "c".repeat(63), "d".repeat(61)].join(".");
    assert_eq!(long.len(), 253);
    assert!(Name::parse(&long).is_some());
    assert_eq!(text(&format!("{long}d")), None);
    assert_eq!(Name::parse("A.b"), Name::parse("a.B"));
}

#[test]
fn a_domain_is_visible_and_bounded() {
    assert_eq!(DomainName::new("a").unwrap().as_str(), "a");
    assert_eq!(DomainName::new("").err(), Some(DomainError::Empty));
    assert_eq!(DomainName::new("a b").err(), Some(DomainError::Character));
    assert_eq!(DomainName::new("é").err(), Some(DomainError::Character));
    assert_eq!(
        DomainName::new(&"a".repeat(256)).err(),
        Some(DomainError::TooLong)
    );
    assert!(DomainName::new(&"a".repeat(255)).is_ok());
}

#[test]
fn integers_read_as_they_were_put() {
    for value in [
        0u64,
        63,
        64,
        16_383,
        16_384,
        1_073_741_823,
        1_073_741_824,
        varint::LIMIT - 1,
    ] {
        let mut bytes = Vec::new();
        varint::put(value, &mut bytes);
        for cut in 0..bytes.len() {
            assert_eq!(varint::get(&bytes[..cut]), None);
        }
        bytes.push(7);
        assert_eq!(varint::get(&bytes), Some((value, [7].as_slice())));
    }
    let mut bytes = Vec::new();
    varint::put(0x401, &mut bytes);
    assert_eq!(bytes, [0x44, 0x01]);
}
