//! Which hosts are intercepted, and on which wire.

use boreas_core::{InterceptDecision, InterceptPolicy, VersionCrossings, Wire};

#[test]
fn the_allowlist_intercepts_only_named_hosts_and_is_case_insensitive() {
    let policy = InterceptPolicy::new(vec!["Example.com".to_owned()]);
    assert_eq!(policy.decide("example.com"), InterceptDecision::Intercept);
    assert_eq!(policy.decide("EXAMPLE.COM"), InterceptDecision::Intercept);
    assert_eq!(policy.decide("evil.example"), InterceptDecision::Splice);
    assert_eq!(policy.decide("example.com.evil"), InterceptDecision::Splice);
}

#[test]
fn the_crossing_counter_ignores_same_version_and_counts_a_bridge() {
    let mut crossings = VersionCrossings::new();
    assert!(!crossings.record(Wire::Http2, Wire::Http2));
    assert!(!crossings.record(Wire::Http1, Wire::Http1));
    assert_eq!(crossings.count(), 0, "one version crosses nothing");
    assert!(crossings.record(Wire::Http1, Wire::Http2));
    assert_eq!(crossings.count(), 1);
}

#[test]
fn a_wire_is_known_by_its_identifier() {
    for wire in Wire::ALL {
        assert_eq!(Wire::from_identifier(wire.identifier()), Some(wire));
        assert_eq!(Wire::from_alpn(Some(wire.identifier())), wire);
    }
    assert_eq!(Wire::Http2.identifier(), b"h2");
    assert_eq!(Wire::from_identifier(b"h3"), None);
    assert_eq!(Wire::from_alpn(Some(b"h3")), Wire::Http1);
    assert_eq!(Wire::from_alpn(None), Wire::Http1);
}

#[test]
fn a_list_counts_each_host_once() {
    let policy = InterceptPolicy::new(vec!["a.example".to_owned(), "A.example".to_owned()]);
    assert_eq!(policy.len(), 1);
    assert!(!policy.is_empty());
    assert!(InterceptPolicy::new(Vec::new()).is_empty());
}
