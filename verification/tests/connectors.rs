use boreas_core::connectors::{overrides, same_profile, Connectors, MAX_CACHED_CONNECTORS};
use boreas_core::ClientProfile;

fn profile(sigalg: u16) -> ClientProfile {
    ClientProfile {
        groups: vec!["X25519", "P-256"],
        sigalgs: vec![sigalg],
        compression: vec![2],
        grease: true,
    }
}

#[test]
fn a_profile_overrides_exactly_what_it_holds() {
    let changes = overrides(&profile(0x0403));
    assert_eq!(changes.groups.as_deref(), Some("X25519:P-256"));
    assert_eq!(changes.sigalgs, Some(vec![0x0403]));
    assert!(changes.brotli);
    assert!(changes.grease);

    let nothing = overrides(&ClientProfile::default());
    assert_eq!(nothing.groups, None);
    assert_eq!(nothing.sigalgs, None);
    assert!(!nothing.brotli);
    assert!(!nothing.grease);
}

#[test]
fn profiles_are_compared_field_by_field() {
    assert!(same_profile(&profile(1), &profile(1)));
    assert!(!same_profile(&profile(1), &profile(2)));
    let mut other = profile(1);
    other.groups = vec!["X25519", "P-384"];
    assert!(!same_profile(&profile(1), &other));
    let mut other = profile(1);
    other.grease = false;
    assert!(!same_profile(&profile(1), &other));
}

#[test]
fn a_connector_is_found_by_profile_and_offer() {
    let mut connectors: Connectors<u32> = Connectors::new();
    assert_eq!(connectors.get(&profile(1), b"h2"), None);
    assert_eq!(*connectors.built(profile(1), b"h2".to_vec(), 7), 7);
    assert_eq!(connectors.get(&profile(1), b"h2"), Some(&7));
    assert_eq!(connectors.get(&profile(1), b"h1"), None);
    assert_eq!(connectors.get(&profile(2), b"h2"), None);
    // The first of two that were built at once is the one that stays.
    assert_eq!(*connectors.built(profile(1), b"h2".to_vec(), 9), 7);
    assert_eq!(connectors.kept.len(), 1);
}

#[test]
fn too_many_connectors_are_forgotten_at_once() {
    let mut connectors: Connectors<u32> = Connectors::new();
    for n in 0..MAX_CACHED_CONNECTORS {
        connectors.built(profile(n as u16), Vec::new(), n as u32);
    }
    assert_eq!(connectors.kept.len(), MAX_CACHED_CONNECTORS);
    assert_eq!(*connectors.built(profile(0xffff), Vec::new(), 99), 99);
    assert_eq!(connectors.kept.len(), 1);
    assert_eq!(connectors.get(&profile(0), b""), None);
    assert_eq!(connectors.get(&profile(0xffff), b""), Some(&99));
}
