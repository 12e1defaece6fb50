//! What a connection speaks, and what becomes of it.

use boreas_core::session::{
    meet, peek_step, splice_target, take_head, Action, Approach, Meeting, Peek, Phase, Session, MAX_RECORD,
    RECORD_HANDSHAKE, RECORD_MAJOR,
};
use boreas_core::{
    introduce, ClientProfile, Demotion, DomainName, Handling, Hello, InterceptPolicy,
    InterceptedTier, Introduction, IpAddr, Ipv4Addr, Offer, SessionError, SessionLimits, SocketAddr, SpliceReason, Target,
    Wire,
};

const HANDSHAKE_CLIENT_HELLO: u8 = 0x01;
const EXTENSION_SERVER_NAME: u16 = 0x0000;
const NAME_TYPE_HOST: u8 = 0x00;

fn client_hello(server_name: Option<&str>) -> Vec<u8> {
    let mut extensions = Vec::new();
    if let Some(name) = server_name {
        let mut entry = vec![NAME_TYPE_HOST];
        entry.extend_from_slice(&(name.len() as u16).to_be_bytes());
        entry.extend_from_slice(name.as_bytes());

        let mut list = (entry.len() as u16).to_be_bytes().to_vec();
        list.extend_from_slice(&entry);

        extensions.extend_from_slice(&EXTENSION_SERVER_NAME.to_be_bytes());
        extensions.extend_from_slice(&(list.len() as u16).to_be_bytes());
        extensions.extend_from_slice(&list);
    }
    extensions.extend_from_slice(&[0x00, 0x2b, 0x00, 0x03, 0x02, 0x03, 0x04]);

    let mut body = Vec::new();
    body.extend_from_slice(&[0x03, 0x03]); // Legacy version.
    body.extend_from_slice(&[0x11; 32]); // Random.
    body.push(0); // Empty legacy session ID.
    body.extend_from_slice(&[0x00, 0x02, 0x13, 0x01]); // One cipher suite.
    body.extend_from_slice(&[0x01, 0x00]); // One compression method.
    body.extend_from_slice(&(extensions.len() as u16).to_be_bytes());
    body.extend_from_slice(&extensions);

    let mut handshake = vec![HANDSHAKE_CLIENT_HELLO];
    handshake.extend_from_slice(&(body.len() as u32).to_be_bytes()[1..]);
    handshake.extend_from_slice(&body);

    let mut record = vec![RECORD_HANDSHAKE, RECORD_MAJOR, 0x01];
    record.extend_from_slice(&(handshake.len() as u16).to_be_bytes());
    record.extend_from_slice(&handshake);
    record
}

#[test]
fn a_client_hello_yields_its_server_name() {
    let hello = client_hello(Some("example.com"));
    assert_eq!(
        introduce(&hello),
        Introduction::Tls(Hello {
            host: Some(DomainName::new("example.com").unwrap()),
            profile: ClientProfile::default(),
            alpn: Offer::default(),
        })
    );
}

#[test]
fn every_proper_prefix_of_a_client_hello_is_incomplete() {
    let hello = client_hello(Some("example.com"));
    for cut in 0..hello.len() {
        assert_eq!(
            introduce(&hello[..cut]),
            Introduction::Incomplete,
            "a {cut}-byte prefix decided"
        );
    }
}

#[test]
fn tls_without_a_server_name_is_tls_with_no_host() {
    assert_eq!(
        introduce(&client_hello(None)),
        Introduction::Tls(Hello::default())
    );
}

#[test]
fn cleartext_http_is_read_for_its_host() {
    assert_eq!(
        introduce(b"GET / HTTP/1.1\r\nHost: example.com:80\r\n\r\n"),
        Introduction::Http {
            host: Some(DomainName::new("example.com").unwrap())
        }
    );
    assert_eq!(
        introduce(b"GET / HTTP/1.1\r\n\r\n"),
        Introduction::Http { host: None }
    );
    for (head, expected) in [
        ("Host: 203.0.113.4", "203.0.113.4"),
        ("Host: [::1]:80", "[::1]"),
    ] {
        assert_eq!(
            introduce(format!("GET / HTTP/1.1\r\n{head}\r\n\r\n").as_bytes()),
            Introduction::Http {
                host: Some(DomainName::new(expected).unwrap())
            }
        );
    }
    assert_eq!(
        introduce(b"GET / HTTP/1.1\r\nHost: exa"),
        Introduction::Incomplete
    );
}

#[test]
fn what_is_neither_tls_nor_http_is_plain() {
    assert_eq!(introduce(b"\x00\x01\x02\x03\x04\x05"), Introduction::Plain);
    assert_eq!(
        introduce(b"SSH-2.0-OpenSSH_9.6 Ubuntu\r\n"),
        Introduction::Plain
    );
    assert_eq!(
        introduce(&[0x16, 0x00, 0x01, 0x00, 0x05]),
        Introduction::Plain
    );
}

#[test]
fn no_mutation_of_a_client_hello_escapes_the_sum() {
    let hello = client_hello(Some("example.com"));
    for index in 0..hello.len() {
        for patch in [0x00u8, 0x01, 0x7f, 0xff] {
            let mut corrupted = hello.clone();
            corrupted[index] = patch;
            let _ = introduce(&corrupted);
        }
    }
    assert_eq!(
        introduce(&[RECORD_HANDSHAKE, RECORD_MAJOR, 0x01, 0xff, 0xff, 0x01]),
        Introduction::Incomplete
    );
}

#[test]
fn a_hostile_server_name_is_refused_rather_than_admitted() {
    let long = "a".repeat(300);
    assert_eq!(
        introduce(&client_hello(Some(&long))),
        Introduction::Tls(Hello::default())
    );
    assert_eq!(
        introduce(&client_hello(Some("bad\0host"))),
        Introduction::Tls(Hello::default())
    );
}

fn host(name: &str) -> DomainName {
    DomainName::new(name).unwrap()
}

fn tls() -> Approach {
    Approach::Tls {
        profile: ClientProfile::default(),
        alpn: Offer(vec![Wire::Http2]),
    }
}

#[test]
fn only_a_listed_host_is_a_candidate() {
    let policy = InterceptPolicy::new(vec!["allowed.example".to_owned()]);
    let http = |name: &str| Introduction::Http {
        host: Some(host(name)),
    };
    assert_eq!(
        meet(http("Allowed.example"), &policy),
        Meeting::Candidate {
            host: host("Allowed.example"),
            approach: Approach::Cleartext
        }
    );
    assert_eq!(
        meet(http("other.example"), &policy),
        Meeting::Splice(SpliceReason::NotAllowlisted)
    );
    assert_eq!(
        meet(Introduction::Http { host: None }, &policy),
        Meeting::Splice(SpliceReason::Unnamed)
    );
    assert_eq!(
        meet(Introduction::Tls(Hello::default()), &policy),
        Meeting::Splice(SpliceReason::Unnamed)
    );
    assert_eq!(
        meet(Introduction::Plain, &policy),
        Meeting::Splice(SpliceReason::NotTls)
    );
    assert_eq!(
        meet(Introduction::Incomplete, &policy),
        Meeting::Splice(SpliceReason::Undecided)
    );
}

#[test]
fn a_tls_session_asks_the_origin_before_the_client() {
    let (mut session, first) =
        Session::begin(host("allowed.example"), tls(), Ok(InterceptedTier::Rewrite), 443).unwrap();
    assert_eq!(
        first,
        Action::Dial(Target::Domain {
            host: host("allowed.example"),
            port: 443
        })
    );
    assert_eq!(session.dialled(Ok(())), Action::Originate(b"\x02h2".to_vec()));
    assert_eq!(
        session.originated(Ok(Some(b"h2".to_vec()))),
        (Action::Terminate(Wire::Http2), None)
    );
    assert_eq!(
        session.terminated(Ok(())),
        (
            Action::Exchange {
                wire: Wire::Http2,
                rewrites: true
            },
            None
        )
    );
    assert_eq!(
        session.exchanged(1),
        (
            Action::Finish(Ok(Handling::Intercepted {
                host: host("allowed.example"),
                wire: Wire::Http2,
                tier: InterceptedTier::Rewrite
            })),
            Some(Demotion::RewriteExhausted)
        )
    );
    assert_eq!(session.phase, Phase::Over);
}

#[test]
fn an_origin_that_fails_is_spliced_and_a_client_that_fails_is_not() {
    let begin = || {
        let (mut session, _) =
            Session::begin(host("a.example"), tls(), Ok(InterceptedTier::Inspect), 443).unwrap();
        session.dialled(Ok(()));
        session
    };
    assert_eq!(
        begin().originated(Err(Some(Demotion::LeafRejected))),
        (
            Action::Splice(SpliceReason::OriginHandshake),
            Some(Demotion::LeafRejected)
        )
    );
    let mut refused = begin();
    refused.originated(Ok(None));
    assert_eq!(
        refused.terminated(Err((Some(Demotion::LeafRejected), "alert".to_owned()))),
        (
            Action::Finish(Ok(Handling::Demoted {
                host: host("a.example"),
                cause: Demotion::LeafRejected
            })),
            Some(Demotion::LeafRejected)
        )
    );
    let mut vanished = begin();
    vanished.originated(Ok(None));
    assert_eq!(
        vanished.terminated(Err((None, "gone".to_owned()))),
        (
            Action::Finish(Err(SessionError::ClientHandshake("gone".to_owned()))),
            None
        )
    );
}

#[test]
fn a_demoted_host_is_spliced_and_a_cleartext_one_has_no_handshakes() {
    assert_eq!(
        Session::begin(host("a.example"), tls(), Err(Demotion::LeafRejected), 443).err(),
        Some(SpliceReason::Demoted(Demotion::LeafRejected))
    );
    let (mut clear, _) =
        Session::begin(host("a.example"), Approach::Cleartext, Ok(InterceptedTier::Inspect), 80)
            .unwrap();
    assert_eq!(
        clear.dialled(Ok(())),
        Action::Exchange {
            wire: Wire::Http1,
            rewrites: false
        }
    );
    assert_eq!(clear.exchanged(0).1, None);
    let (mut down, _) =
        Session::begin(host("a.example"), Approach::Cleartext, Ok(InterceptedTier::Inspect), 80)
            .unwrap();
    let failed = SessionError::Upstream("refused".to_owned());
    assert_eq!(failed.text(), "upstream unreachable: refused");
    assert_eq!(
        down.dialled(Err("refused".to_owned())),
        Action::Finish(Err(failed))
    );
}

#[test]
fn a_connection_is_judged_once_it_is_decided_or_too_long() {
    let hello = client_hello(Some("example.com"));
    assert_eq!(peek_step(&hello[..10]), Peek::More);
    assert_eq!(peek_step(&hello), Peek::Judged(introduce(&hello)));
    let mut endless = vec![RECORD_HANDSHAKE, RECORD_MAJOR, 1, 0xff, 0xff];
    endless.resize(MAX_RECORD, 0);
    assert_eq!(peek_step(&endless), Peek::Judged(Introduction::Incomplete));
    assert_eq!(SessionLimits::default().peek_timeout.nanos, 5_000_000_000);
}

#[test]
fn what_was_parsed_of_a_head_decides() {
    assert_eq!(take_head(None), Introduction::Plain);
    assert_eq!(take_head(Some(None)), Introduction::Incomplete);
    assert_eq!(
        take_head(Some(Some(vec![
            (b"Accept".to_vec(), b"*/*".to_vec()),
            (b"HOST".to_vec(), b"example.com:8080".to_vec()),
        ]))),
        Introduction::Http {
            host: Some(host("example.com"))
        }
    );
    assert_eq!(
        take_head(Some(Some(vec![(b"host".to_vec(), b"\xff".to_vec())]))),
        Introduction::Http { host: None }
    );
}

#[test]
fn a_splice_goes_to_the_address_that_was_asked_for() {
    let server = SocketAddr {
        ip: IpAddr::V4(Ipv4Addr::new(198, 51, 100, 5)),
        port: 443,
    };
    assert_eq!(splice_target(server), Target::Ip(server));
}
