//! The authority, its stored material and its leaves.

use boreas_core::authority::{generated, paired, restored};
use boreas_core::ca::{leaf_profile, root_profile, Day, LeafCache, Pairing, Usage};
use boreas_core::{CaError, CaKeys, CaMaterial, CertificateAuthority, MitmResolver, Trust};

fn authority() -> CertificateAuthority {
    CertificateAuthority::generate().unwrap_or_else(|error| panic!("{}", error.text()))
}

#[test]
fn a_leaf_is_one_certificate_over_the_shared_key() {
    let ca = authority();
    let leaf = ca.leaf_for("example.com").expect("leaf mints");
    assert_eq!(leaf.cert.len(), 1);
    assert!(
        !ca.root_der().is_empty(),
        "the installable root is real DER"
    );

    let other = ca.leaf_for("other.example").expect("leaf mints");
    assert_eq!(leaf.key, other.key, "one leaf key, many certs");
    assert_ne!(leaf.cert, other.cert);
}

#[test]
fn a_host_that_no_certificate_can_name_has_no_leaf() {
    assert!(matches!(
        authority().leaf_for("b\u{fc}cher.example"),
        Err(CaError::Signing(_))
    ));
}

#[test]
fn the_cache_returns_one_leaf_per_host_and_bounds_its_size() {
    let mut resolver = MitmResolver::new(authority(), 2);

    let first = resolver.leaf("a.example").expect("mints").clone();
    let again = resolver.leaf("a.example").expect("cached").clone();
    assert_eq!(first, again, "a hit returns the same leaf");

    let second = resolver.leaf("b.example").expect("mints").clone();
    assert_ne!(first, second);

    let _third = resolver.leaf("c.example").expect("mints");
    let a_again = resolver.leaf("a.example").expect("re-mints after eviction");
    assert_ne!(
        &first, a_again,
        "the evicted host was regenerated, not served stale"
    );
}

#[test]
fn a_restored_authority_mints_under_the_root_it_restored() {
    let first = authority();
    let material = first.material();
    let restored = CertificateAuthority::restore(&material)
        .unwrap_or_else(|error| panic!("{}", error.text()));

    assert_eq!(
        restored.root_der(),
        first.root_der(),
        "the installed root comes back byte for byte, serial included"
    );

    let before = first.leaf_for("example.com").unwrap();
    let after = restored.leaf_for("example.com").unwrap();
    assert_ne!(
        before.cert[0], after.cert[0],
        "a fresh leaf, since each carries its own serial"
    );
    assert_eq!(
        issuer_of(&after.cert[0]),
        issuer_of(&before.cert[0]),
        "but issued by the same name, which is what makes it chain"
    );
    assert_eq!(
        after.key, before.key,
        "and over the same leaf key, so a pin survives the restart too"
    );
}

fn field(bytes: &[u8]) -> (&[u8], &[u8]) {
    let (length, rest) = match bytes[1] {
        short if short < 0x80 => (usize::from(short), &bytes[2..]),
        long => {
            let count = usize::from(long & 0x7f);
            let mut length = 0usize;
            for byte in &bytes[2..2 + count] {
                length = (length << 8) | usize::from(*byte);
            }
            (length, &bytes[2 + count..])
        }
    };
    (&rest[..length], &rest[length..])
}

/// The issuer that a certificate names.
fn issuer_of(der: &[u8]) -> Vec<u8> {
    let (tbs, _) = field(field(der).0);
    let (_version, rest) = field(tbs);
    let (_serial, rest) = field(rest);
    let (_signature, rest) = field(rest);
    field(rest).0.to_vec()
}

fn holds(der: &[u8], text: &[u8]) -> bool {
    der.windows(text.len()).any(|window| window == text)
}

#[test]
fn certificates_say_what_their_profiles_say() {
    let ca = authority();
    assert!(holds(ca.root_der(), b"Boreas Root CA"));
    assert!(holds(&issuer_of(ca.root_der()), b"Boreas Root CA"));
    let leaf = ca.leaf_for("example.com").unwrap();
    assert!(holds(&leaf.cert[0], b"example.com"));
    assert!(holds(&issuer_of(&leaf.cert[0]), b"Boreas Root CA"));
    // The end of the validity, as DER writes it.
    assert!(holds(&leaf.cert[0], b"21000101000000Z"));
}

#[test]
fn opening_with_or_without_stored_material_leaves_the_host_the_same_two_jobs() {
    let first = CertificateAuthority::open(Trust::Generate)
        .unwrap_or_else(|error| panic!("{}", error.text()));
    let kept = first.material();

    let again = CertificateAuthority::open(Trust::Restore(kept.clone()))
        .unwrap_or_else(|error| panic!("{}", error.text()));
    assert_eq!(
        again.material().root_certificate,
        kept.root_certificate,
        "what a host stores after restoring is what it already had"
    );
    assert_eq!(
        again.root_der(),
        kept.root_certificate.as_slice(),
        "and what it offers is the root the user already trusts"
    );
}

#[test]
fn material_that_will_not_parse_is_reported_rather_than_replaced() {
    let good = authority().material();
    let broken = CaMaterial {
        root_certificate: good.root_certificate.clone(),
        keys: CaKeys::from_bytes(b"not this crate's".to_vec()),
    };
    assert!(matches!(
        CertificateAuthority::open(Trust::Restore(broken)),
        Err(CaError::Material)
    ));
    let unreadable = CaMaterial {
        root_certificate: good.root_certificate,
        keys: CaKeys::pack(b"no key", b"no key"),
    };
    assert!(matches!(
        CertificateAuthority::restore(&unreadable),
        Err(CaError::KeyGeneration(_))
    ));
}

#[test]
fn the_first_key_that_cannot_be_loaded_is_reported() {
    let with = |root: Result<(), String>, leaf: Result<(), String>, signer: Result<(), String>| {
        restored(vec![1], vec![2], vec![3], root, leaf, signer)
    };
    let no = |text: &str| Err(text.to_owned());
    assert!(matches!(
        with(no("a"), no("b"), no("c")),
        Err(CaError::KeyGeneration(text)) if text == "a"
    ));
    assert!(matches!(
        with(Ok(()), no("b"), no("c")),
        Err(CaError::KeyGeneration(text)) if text == "b"
    ));
    assert!(matches!(
        with(Ok(()), Ok(()), no("c")),
        Err(CaError::KeyLoading(text)) if text == "c"
    ));
    let Ok(ca) = with(Ok(()), Ok(()), Ok(())) else {
        panic!("all keys were loaded");
    };
    assert_eq!(ca.root_der(), [1]);
    assert_eq!(
        ca.material().keys().unpack(),
        Ok(([2].as_slice(), [3].as_slice()))
    );
}

#[test]
fn material_a_host_could_not_store_intact_is_refused() {
    let good = authority().material();
    let bytes = good.keys().as_bytes().to_vec();

    for (label, keys) in [
        ("empty", Vec::new()),
        ("a version this build has never written", {
            let mut other = bytes.clone();
            other[0] = 0xff;
            other
        }),
        ("truncated mid-key", bytes[..bytes.len() / 2].to_vec()),
        ("length longer than what follows", {
            let mut other = bytes.clone();
            other[1..5].copy_from_slice(&u32::MAX.to_be_bytes());
            other
        }),
        ("trailing bytes nothing accounts for", {
            let mut other = bytes.clone();
            other.push(0);
            other
        }),
    ] {
        assert!(
            matches!(
                CaMaterial::from_parts(
                    good.root_certificate().to_vec(),
                    CaKeys::from_bytes(keys),
                    Pairing::Paired
                ),
                Err(CaError::Material)
            ),
            "{label}"
        );
    }
}

#[test]
fn a_certificate_and_keys_from_different_authorities_are_refused() {
    let mine = authority().material();
    let theirs = authority().material();

    assert!(
        matches!(
            CaMaterial::from_parts(
                theirs.root_certificate().to_vec(),
                mine.keys().clone(),
                Pairing::Unpaired
            ),
            Err(CaError::Mismatched)
        ),
        "a root this key never issued"
    );
    assert!(matches!(
        CaMaterial::from_parts(
            mine.root_certificate().to_vec(),
            mine.keys().clone(),
            Pairing::Unreadable
        ),
        Err(CaError::Material)
    ));
    let rejoined = CaMaterial::from_parts(
        mine.root_certificate().to_vec(),
        mine.keys().clone(),
        Pairing::Paired,
    )
    .unwrap_or_else(|error| panic!("{}", error.text()));
    let restored = CertificateAuthority::restore(&rejoined)
        .unwrap_or_else(|error| panic!("{}", error.text()));
    assert_eq!(restored.root_der(), mine.root_certificate());
}

#[test]
fn unpacking_gives_back_both_keys() {
    let packed = CaKeys::pack(b"root", b"");
    assert_eq!(
        packed.as_bytes(),
        [1, 0, 0, 0, 4, b'r', b'o', b'o', b't', 0, 0, 0, 0]
    );
    assert_eq!(packed.unpack(), Ok((b"root".as_slice(), b"".as_slice())));
}

#[test]
fn the_public_artefact_is_not_inside_the_secret() {
    let material = authority().material();
    assert!(!material.root_certificate().is_empty());
    assert!(
        !material
            .keys()
            .as_bytes()
            .windows(material.root_certificate().len())
            .any(|window| window == material.root_certificate()),
        "the certificate is handed out separately, not buried in the secret"
    );
}

#[test]
fn a_failed_mint_is_not_remembered() {
    let mut cache: LeafCache<u32> = LeafCache::new(2);
    let host = |name: &str| name.to_owned();
    assert_eq!(cache.hit(&host("a.example")), None);
    assert_eq!(cache.minted(host("a.example"), None), None, "a failure is tried again");
    assert_eq!(cache.hit(&host("a.example")), None);
    assert_eq!(cache.minted(host("a.example"), Some(1)), Some(&1));
    assert_eq!(cache.hit(&host("a.example")), Some(&1));
    assert_eq!(cache.minted(host("b.example"), Some(2)), Some(&2));
    assert_eq!(cache.minted(host("c.example"), Some(3)), Some(&3));
    assert_eq!(cache.hit(&host("a.example")), None, "the oldest is forgotten");
    assert_eq!(cache.hit(&host("c.example")), Some(&3));
}

#[test]
fn a_leaf_is_for_its_host_and_signs_nothing() {
    let leaf = leaf_profile("example.com");
    assert_eq!(leaf.common_name, "example.com");
    assert_eq!(leaf.host.as_deref(), Some("example.com"));
    assert!(leaf.server && !leaf.authority);
    let root = root_profile();
    assert_eq!(root.common_name, "Boreas Root CA");
    assert_eq!(root.organization.as_deref(), Some("Boreas"));
    assert!(root.authority && root.host.is_none());
    assert_eq!(leaf.usages, vec![Usage::DigitalSignature]);
    assert_eq!(
        root.usages,
        vec![
            Usage::CertificateSigning,
            Usage::RevocationSigning,
            Usage::DigitalSignature
        ]
    );
    assert_eq!(
        (root.not_before, leaf.not_after),
        (
            Day {
                year: 2020,
                month: 1,
                day: 1
            },
            Day {
                year: 2100,
                month: 1,
                day: 1
            }
        )
    );
    assert_eq!(
        CaError::Signing("no".to_owned()).text(),
        "could not sign a certificate: no"
    );
    assert_eq!(
        CaError::Mismatched.text(),
        "the stored certificate was not issued to the stored key"
    );
}

#[test]
fn the_first_step_that_fails_names_the_error() {
    let ok = |byte: u8| Ok(vec![byte]);
    let no = |text: &str| -> Result<Vec<u8>, String> { Err(text.to_owned()) };
    assert!(matches!(
        generated(no("a"), no("b"), no("c"), Err("d".to_owned())),
        Err(CaError::KeyGeneration(text)) if text == "a"
    ));
    assert!(matches!(
        generated(ok(1), no("b"), no("c"), Err("d".to_owned())),
        Err(CaError::Signing(text)) if text == "b"
    ));
    assert!(matches!(
        generated(ok(1), ok(2), no("c"), Err("d".to_owned())),
        Err(CaError::KeyGeneration(text)) if text == "c"
    ));
    assert!(matches!(
        generated(ok(1), ok(2), ok(3), Err("d".to_owned())),
        Err(CaError::KeyLoading(text)) if text == "d"
    ));
    let Ok(ca) = generated(ok(1), ok(2), ok(3), Ok(())) else {
        panic!("every step went well");
    };
    assert_eq!(ca.root_der(), [2]);
    assert_eq!(
        ca.material().keys().unpack(),
        Ok(([1].as_slice(), [3].as_slice()))
    );
}

#[test]
fn a_signed_certificate_is_paired_with_the_shared_key() {
    let leaf = paired(Ok(vec![1, 2]), &[3]).unwrap();
    assert_eq!(leaf.cert, vec![vec![1, 2]]);
    assert_eq!(leaf.key, vec![3]);
    assert_eq!(
        paired(Err("no".to_owned()), &[3]),
        Err(CaError::Signing("no".to_owned()))
    );
}
