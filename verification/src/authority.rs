//! The certificate authority: it makes its keys and its root, brings them back,
//! and mints a leaf for each host over one key.
//!
//! Keys and signatures are drawn from the system's generator, so two runs give
//! different bytes. What the certificates say does not depend on it.

use vstd::prelude::*;

use rcgen::{
    date_time_ymd, BasicConstraints, CertificateParams, DnType, ExtendedKeyUsagePurpose, IsCa, Issuer,
    KeyPair, KeyUsagePurpose,
};
use rustls::crypto::ring::sign::any_supported_type;
use rustls::pki_types::{PrivateKeyDer, PrivatePkcs8KeyDer};

#[allow(unused_imports)]
use crate::ca;
use crate::ca::{
    leaf_profile, root_profile, CaError, CaMaterial, CertificateProfile, Day, LeafCache, Trust, Usage,
};
use crate::fields::bytes_of;
#[allow(unused_imports)]
use crate::fifo;

verus! {

#[verifier::external_type_specification]
#[verifier::external_body]
pub struct ExCertificateParams(rcgen::CertificateParams);

/// What the profile says that these parameters were made of.
pub uninterp spec fn params_say(params: rcgen::CertificateParams) -> ca::Said;

/// A day that every year has.
pub open spec fn is_common_day(d: Day) -> bool {
    0 <= d.year <= 9999 && 1 <= d.month <= 12 && 1 <= d.day <= 28
}

/// Whether every character is ASCII.
pub open spec fn is_ascii_text(s: Seq<char>) -> bool {
    forall|i: int| 0 <= i < s.len() ==> (#[trigger] s[i] as u32) < 128
}

/// `rcgen::CertificateParams::new`, with the names, the validity and the
/// authority of a profile set in it: the parameters are made of what the profile
/// says, but for its usages. A host that is an address literal becomes an address
/// in the certificate, whatever notation it came in. A host that is not ASCII has no place in a certificate;
/// that alone is refused.
#[verifier::external_body]
fn new_params(p: &CertificateProfile) -> (r: Result<CertificateParams, String>)
    requires
        is_common_day(p.not_before),
        is_common_day(p.not_after),
    ensures
        r is Ok == (p@.host matches Some(host) ==> is_ascii_text(host)),
        r matches Ok(params) ==> params_say(params) == (ca::Said {
            usages: seq![],
            server: false,
            ..p@
        }),
{
    let mut c = CertificateParams::new(Vec::from_iter(p.host.clone())).map_err(|e| e.to_string())?;
    c.distinguished_name.push(DnType::CommonName, p.common_name.as_str());
    if let Some(o) = &p.organization {
        c.distinguished_name.push(DnType::OrganizationName, o.as_str());
    }
    c.is_ca = if p.authority { IsCa::Ca(BasicConstraints::Unconstrained) } else { IsCa::ExplicitNoCa };
    let (from, until) = (p.not_before, p.not_after);
    c.not_before = date_time_ymd(from.year, from.month, from.day);
    c.not_after = date_time_ymd(until.year, until.month, until.day);
    Ok(c)
}

/// The usages of `rcgen::CertificateParams`: they are set to these, and the rest
/// is kept.
#[verifier::external_body]
fn set_usages(c: &mut CertificateParams, usages: &Vec<Usage>, server: bool)
    ensures
        params_say(*final(c)) == (ca::Said { usages: usages@, server, ..params_say(*old(c)) }),
{
    c.key_usages = usages.iter().map(|u| match u {
        Usage::CertificateSigning => KeyUsagePurpose::KeyCertSign,
        Usage::RevocationSigning => KeyUsagePurpose::CrlSign,
        Usage::DigitalSignature => KeyUsagePurpose::DigitalSignature,
    }).collect();
    c.extended_key_usages = if server { vec![ExtendedKeyUsagePurpose::ServerAuth] } else { vec![] };
}

/// The parameters that are made of a profile.
fn params_of(p: &CertificateProfile) -> (r: Result<CertificateParams, String>)
    requires
        is_common_day(p.not_before),
        is_common_day(p.not_after),
    ensures
        r is Ok == (p@.host matches Some(host) ==> is_ascii_text(host)),
        r matches Ok(params) ==> params_say(params) == p@,
{
    match new_params(p) {
        Ok(params) => {
            let mut params = params;
            set_usages(&mut params, &p.usages, p.server);
            Ok(params)
        },
        Err(e) => Err(e),
    }
}

/// `rcgen::KeyPair::generate` and its `serialize_der`: a private key, as the
/// system's generator draws it.
#[verifier::external_body]
fn generate_key() -> (r: Result<Vec<u8>, String>)
    ensures
        r matches Ok(key) ==> key@.len() <= 185,
{
    match KeyPair::generate() {
        Ok(key) => Ok(key.serialize_der()),
        Err(e) => Err(e.to_string()),
    }
}

/// Whether bytes are a private key that `rcgen` reads.
pub uninterp spec fn is_readable_key(der: Seq<u8>) -> bool;

/// `rcgen::KeyPair::try_from` on a PKCS #8 key. A key that is not readable is
/// refused. One that is can be refused too, where the system's generator fails
/// at that moment; so success is not promised.
#[verifier::external_body]
fn load_key(der: &[u8]) -> (r: Result<(), String>)
    ensures
        r is Ok ==> is_readable_key(der@),
{
    match KeyPair::try_from(&PrivatePkcs8KeyDer::from(der)) {
        Ok(_) => Ok(()),
        Err(e) => Err(e.to_string()),
    }
}

/// Whether bytes are a private key that `rustls` signs with.
pub uninterp spec fn is_signing_key(der: Seq<u8>) -> bool;

/// `rustls::crypto::ring::sign::any_supported_type` on a PKCS #8 key. A key
/// that cannot sign is refused. As with [`load_key`], success is not promised.
#[verifier::external_body]
fn load_signer(der: &[u8]) -> (r: Result<(), String>)
    ensures
        r is Ok ==> is_signing_key(der@),
{
    match any_supported_type(&PrivateKeyDer::Pkcs8(PrivatePkcs8KeyDer::from(der))) {
        Ok(_) => Ok(()),
        Err(e) => Err(e.to_string()),
    }
}

/// Whether `certificate` is one that signing with `key` can give, for a subject
/// that says this and signs itself.
pub uninterp spec fn self_signed(says: ca::Said, key: Seq<u8>, certificate: Seq<u8>) -> bool;

/// `rcgen::CertificateParams::self_signed`: a certificate over the parameters,
/// signed with its own key. A signature holds random bits, so which certificate
/// it is, and that there is one, is not promised.
#[verifier::external_body]
fn sign_root(params: &CertificateParams, key: &[u8]) -> (r: Result<Vec<u8>, String>)
    ensures
        r matches Ok(certificate) ==> self_signed(params_say(*params), key@, certificate@),
{
    let key = KeyPair::try_from(&PrivatePkcs8KeyDer::from(key)).map_err(|e| e.to_string())?;
    let signed = params.self_signed(&key).map_err(|e| e.to_string())?;
    Ok(signed.der().to_vec())
}

/// Whether `certificate` is one that an issuer can sign with `issuer_key`, for
/// a subject that says this and holds `key`.
pub uninterp spec fn issued(
    says: ca::Said,
    key: Seq<u8>,
    issuer: ca::Said,
    issuer_key: Seq<u8>,
    certificate: Seq<u8>,
) -> bool;

/// `rcgen::CertificateParams::signed_by`: a certificate over the parameters and
/// the subject's key, signed by the issuer. As with [`sign_root`], which one it
/// is, and that there is one, is not promised.
#[verifier::external_body]
fn sign_leaf(
    params: &CertificateParams,
    key: &[u8],
    issuer: CertificateParams,
    issuer_key: &[u8],
) -> (r: Result<Vec<u8>, String>)
    ensures
        r matches Ok(certificate) ==> issued(
            params_say(*params),
            key@,
            params_say(issuer),
            issuer_key@,
            certificate@,
        ),
{
    let key = KeyPair::try_from(&PrivatePkcs8KeyDer::from(key)).map_err(|e| e.to_string())?;
    let root = KeyPair::try_from(&PrivatePkcs8KeyDer::from(issuer_key)).map_err(|e| e.to_string())?;
    let signed = params.signed_by(&key, &Issuer::new(issuer, root)).map_err(|e| e.to_string())?;
    Ok(signed.der().to_vec())
}

/// What an authority is made of.
pub struct Authority {
    pub root_der: Seq<u8>,
    pub root_key: Seq<u8>,
    pub leaf_key: Seq<u8>,
}

/// A leaf: its certificates, of which there is one, and its key.
#[derive(Clone, Debug, PartialEq, Eq)]
pub struct Leaf {
    pub cert: Vec<Vec<u8>>,
    pub key: Vec<u8>,
}

/// The root, and the key that all leaves share.
pub struct CertificateAuthority {
    root_der: Vec<u8>,
    root_key: Vec<u8>,
    leaf_key: Vec<u8>,
}

impl View for CertificateAuthority {
    type V = Authority;

    closed spec fn view(&self) -> Authority {
        Authority {
            root_der: self.root_der@,
            root_key: self.root_key@,
            leaf_key: self.leaf_key@,
        }
    }
}

/// Whether the keys can be stored.
pub open spec fn can_be_stored(a: Authority) -> bool {
    a.root_key.len() <= u32::MAX && a.leaf_key.len() <= u32::MAX
}

/// Whether a leaf is one that this authority mints for a host: one certificate
/// under its root, over the key that all leaves share.
pub open spec fn is_leaf_for(a: Authority, host: Seq<char>, leaf: Leaf) -> bool {
    &&& leaf.cert@.len() == 1
    &&& issued(ca::leaf_says(host), a.leaf_key, ca::root_says(), a.root_key, leaf.cert@[0]@)
    &&& leaf.key@ == a.leaf_key
}

/// The authority that was stored as a certificate and a secret.
pub open spec fn stored(certificate: Seq<u8>, secret: Seq<u8>) -> Option<Authority> {
    match ca::unpacked(secret) {
        Some((root_key, leaf_key)) => Some(
            Authority { root_der: certificate, root_key, leaf_key },
        ),
        None => None,
    }
}

/// The authority of these parts, given whether its keys could be loaded. The
/// first failure is the one that is reported.
pub fn restored(
    root_der: Vec<u8>,
    root_key: Vec<u8>,
    leaf_key: Vec<u8>,
    root: Result<(), String>,
    leaf: Result<(), String>,
    signer: Result<(), String>,
) -> (r: Result<CertificateAuthority, CaError>)
    ensures
        match (root, leaf, signer) {
            (Err(e), _, _) => r matches Err(CaError::KeyGeneration(t)) && t@ == e@,
            (_, Err(e), _) => r matches Err(CaError::KeyGeneration(t)) && t@ == e@,
            (_, _, Err(e)) => r matches Err(CaError::KeyLoading(t)) && t@ == e@,
            _ => r matches Ok(a) && a@ == (Authority {
                root_der: root_der@,
                root_key: root_key@,
                leaf_key: leaf_key@,
            }),
        },
{
    match root {
        Err(e) => {
            return Err(CaError::KeyGeneration(e));
        },
        Ok(()) => {},
    }
    match leaf {
        Err(e) => {
            return Err(CaError::KeyGeneration(e));
        },
        Ok(()) => {},
    }
    match signer {
        Err(e) => {
            return Err(CaError::KeyLoading(e));
        },
        Ok(()) => {},
    }
    Ok(CertificateAuthority { root_der, root_key, leaf_key })
}

/// The authority of these parts, given how making each of them went. The first
/// failure is the one that is reported; what comes after it was not tried.
pub fn generated(
    root_key: Result<Vec<u8>, String>,
    root_der: Result<Vec<u8>, String>,
    leaf_key: Result<Vec<u8>, String>,
    signer: Result<(), String>,
) -> (r: Result<CertificateAuthority, CaError>)
    ensures
        match (root_key, root_der, leaf_key, signer) {
            (Err(e), _, _, _) => r matches Err(CaError::KeyGeneration(t)) && t@ == e@,
            (_, Err(e), _, _) => r matches Err(CaError::Signing(t)) && t@ == e@,
            (_, _, Err(e), _) => r matches Err(CaError::KeyGeneration(t)) && t@ == e@,
            (_, _, _, Err(e)) => r matches Err(CaError::KeyLoading(t)) && t@ == e@,
            (Ok(root_key), Ok(root_der), Ok(leaf_key), Ok(_)) => r matches Ok(a) && a@ == (Authority {
                root_der: root_der@,
                root_key: root_key@,
                leaf_key: leaf_key@,
            }),
        },
{
    let root_key: Vec<u8> = match root_key {
        Ok(key) => key,
        Err(e) => {
            return Err(CaError::KeyGeneration(e));
        },
    };
    let root_der: Vec<u8> = match root_der {
        Ok(certificate) => certificate,
        Err(e) => {
            return Err(CaError::Signing(e));
        },
    };
    let leaf_key: Vec<u8> = match leaf_key {
        Ok(key) => key,
        Err(e) => {
            return Err(CaError::KeyGeneration(e));
        },
    };
    match signer {
        Ok(()) => Ok(CertificateAuthority { root_der, root_key, leaf_key }),
        Err(e) => Err(CaError::KeyLoading(e)),
    }
}

/// The leaf that signing gave, over the key that all leaves share.
pub fn paired(signed: Result<Vec<u8>, String>, key: &[u8]) -> (r: Result<Leaf, CaError>)
    ensures
        match signed {
            Ok(certificate) => r matches Ok(leaf) && leaf.cert@.len() == 1 && leaf.cert@[0]@
                == certificate@ && leaf.key@ == key@,
            Err(e) => r matches Err(CaError::Signing(t)) && t@ == e@,
        },
{
    match signed {
        Ok(certificate) => {
            let mut cert: Vec<Vec<u8>> = Vec::new();
            cert.push(certificate);
            Ok(Leaf { cert, key: bytes_of(key) })
        },
        Err(e) => Err(CaError::Signing(e)),
    }
}

/// What holds of an authority that was made anew.
pub open spec fn is_new(a: Authority) -> bool {
    &&& can_be_stored(a)
    &&& self_signed(ca::root_says(), a.root_key, a.root_der)
    &&& is_signing_key(a.leaf_key)
}

/// What holds of an authority that was brought back from a certificate and a
/// secret.
pub open spec fn is_brought_back(a: Authority, certificate: Seq<u8>, secret: Seq<u8>) -> bool {
    &&& can_be_stored(a)
    &&& stored(certificate, secret) == Some(a)
    &&& is_readable_key(a.root_key)
    &&& is_readable_key(a.leaf_key)
    &&& is_signing_key(a.leaf_key)
}

impl CertificateAuthority {
    pub fn open(trust: Trust) -> (r: Result<Self, CaError>)
        ensures
            match trust {
                Trust::Generate => (r matches Ok(a) ==> is_new(a@)) && (r matches Err(e) ==> !(
                e is Material) && !(e is Mismatched)),
                Trust::Restore(m) => (r matches Ok(a) ==> is_brought_back(
                    a@,
                    m.certificate(),
                    m.secret(),
                )) && (r matches Err(e) ==> (e is Material == (stored(
                    m.certificate(),
                    m.secret(),
                ) is None) && !(e is Mismatched))),
            },
    {
        match trust {
            Trust::Generate => Self::generate(),
            Trust::Restore(material) => Self::restore(&material),
        }
    }

    /// A new authority, with keys that no other has.
    pub fn generate() -> (r: Result<Self, CaError>)
        ensures
            r matches Ok(a) ==> is_new(a@),
            r matches Err(e) ==> !(e is Material) && !(e is Mismatched),
    {
        let root_key: Result<Vec<u8>, String> = generate_key();
        let root_der: Result<Vec<u8>, String> = match &root_key {
            Ok(key) => match params_of(&root_profile()) {
                Ok(params) => sign_root(&params, key.as_slice()),
                Err(e) => Err(e),
            },
            Err(_) => Err(String::new()),
        };
        let leaf_key: Result<Vec<u8>, String> = match &root_der {
            Ok(_) => generate_key(),
            Err(_) => Err(String::new()),
        };
        let signer: Result<(), String> = match &leaf_key {
            Ok(key) => load_signer(key.as_slice()),
            Err(_) => Err(String::new()),
        };
        generated(root_key, root_der, leaf_key, signer)
    }

    /// What is stored, so that the authority can be brought back.
    pub fn material(&self) -> (r: CaMaterial)
        requires
            can_be_stored(self@),
        ensures
            r.certificate() == self@.root_der,
            r.secret() == ca::packed(self@.root_key, self@.leaf_key),
    {
        CaMaterial::of(self.root_der.as_slice(), self.root_key.as_slice(), self.leaf_key.as_slice())
    }

    /// Brings an authority back under the root that is already trusted.
    pub fn restore(material: &CaMaterial) -> (r: Result<Self, CaError>)
        ensures
            r matches Ok(a) ==> is_brought_back(a@, material.certificate(), material.secret()),
            r matches Err(e) ==> (e is Material == (stored(
                material.certificate(),
                material.secret(),
            ) is None) && !(e is Mismatched) && !(e is Signing)),
    {
        let (root, leaf) = match material.keys.unpack() {
            Ok(keys) => keys,
            Err(e) => {
                return Err(e);
            },
        };
        proof {
            ca::only_packed_keys_unpack(material.secret());
        }
        restored(
            bytes_of(material.root_certificate.as_slice()),
            bytes_of(root),
            bytes_of(leaf),
            load_key(root),
            load_key(leaf),
            load_signer(leaf),
        )
    }

    pub fn root_der(&self) -> (r: &[u8])
        ensures
            r@ == self@.root_der,
    {
        self.root_der.as_slice()
    }

    /// Mints the leaf of a host. A host that is not ASCII has none.
    pub fn leaf_for(&self, host: &str) -> (r: Result<Leaf, CaError>)
        ensures
            r matches Ok(leaf) ==> is_ascii_text(host@) && is_leaf_for(self@, host@, leaf),
            r matches Err(e) ==> e is Signing,
    {
        let signed: Result<Vec<u8>, String> = match params_of(&leaf_profile(host)) {
            Ok(params) => match params_of(&root_profile()) {
                Ok(issuer) => sign_leaf(
                    &params,
                    self.leaf_key.as_slice(),
                    issuer,
                    self.root_key.as_slice(),
                ),
                Err(e) => Err(e),
            },
            Err(e) => Err(e),
        };
        paired(signed, self.leaf_key.as_slice())
    }
}

/// What is stored of an authority brings exactly that authority back: the root
/// that is already trusted, byte for byte, and the key that leaves are pinned
/// to.
pub proof fn what_is_stored_is_the_authority(a: Authority)
    requires
        can_be_stored(a),
    ensures
        stored(a.root_der, ca::packed(a.root_key, a.leaf_key)) == Some(a),
{
    ca::unpacking_undoes_packing(a.root_key, a.leaf_key);
}

/// All leaves of an authority share one key.
pub proof fn all_leaves_share_one_key(
    a: Authority,
    one_host: Seq<char>,
    one: Leaf,
    other_host: Seq<char>,
    other: Leaf,
)
    requires
        is_leaf_for(a, one_host, one),
        is_leaf_for(a, other_host, other),
    ensures
        one.key@ == other.key@,
{
}

/// Leaves that are remembered for the hosts that asked for them.
pub struct MitmResolver {
    authority: CertificateAuthority,
    cache: LeafCache<Leaf>,
}

impl MitmResolver {
    pub closed spec fn authority(&self) -> Authority {
        self.authority@
    }

    pub closed spec fn capacity(&self) -> int {
        self.cache.capacity()
    }

    /// What is remembered, oldest first.
    pub closed spec fn remembered(&self) -> Seq<(String, Leaf)> {
        self.cache@
    }

    /// No more than the capacity, no host twice, and only leaves of the
    /// authority.
    pub closed spec fn wf(&self) -> bool {
        &&& self.cache.wf()
        &&& forall|i: int|
            0 <= i < self.cache@.len() ==> is_leaf_for(
                self.authority@,
                (#[trigger] self.cache@[i]).0@,
                self.cache@[i].1,
            )
    }

    pub fn new(authority: CertificateAuthority, cache_capacity: usize) -> (r: Self)
        requires
            cache_capacity > 0,
        ensures
            r.wf(),
            r.authority() == authority@,
            r.capacity() == cache_capacity,
            r.remembered().len() == 0,
    {
        MitmResolver { authority, cache: LeafCache::new(cache_capacity) }
    }

    /// The leaf of a host: the one that is remembered, or a new one, which then
    /// is. A failure is not remembered, so it is tried again.
    pub fn leaf(&mut self, host: &str) -> (r: Option<&Leaf>)
        requires
            old(self).wf(),
        ensures
            final(self).wf(),
            final(self).authority() == old(self).authority(),
            final(self).capacity() == old(self).capacity(),
            r matches Some(leaf) ==> is_leaf_for(old(self).authority(), host@, *leaf),
            is_known(old(self).remembered(), host@) ==> final(self).remembered() == old(self).remembered() && (r matches Some(leaf) && exists|i: int|
                0 <= i < old(self).remembered().len() && (#[trigger] old(self).remembered()[i]).0@
                    == host@ && old(self).remembered()[i].1 == *leaf),
            !is_known(old(self).remembered(), host@) ==> match r {
                Some(leaf) => exists|name: String|
                    name@ == host@ && final(self).remembered() == #[trigger] fifo::remembered(
                        old(self).remembered(),
                        old(self).capacity(),
                        name,
                        *leaf,
                    ),
                None => final(self).remembered() == old(self).remembered(),
            },
    {
        let name: String = host.to_owned();
        let known: bool = self.cache.hit(&name).is_some();
        if known {
            return self.cache.hit(&name);
        }
        let leaf: Option<Leaf> = match self.authority.leaf_for(host) {
            Ok(leaf) => Some(leaf),
            Err(_) => None,
        };
        proof {
            let before = self.cache@;
            let capacity = self.cache.capacity();
            if leaf is Some {
                let one = leaf->0;
                let after = fifo::remembered(before, capacity, name, one);
                assert forall|i: int| 0 <= i < after.len() implies is_leaf_for(
                    self.authority@,
                    (#[trigger] after[i]).0@,
                    after[i].1,
                ) by {
                    if i < after.len() - 1 {
                        if before.len() >= capacity {
                            assert(after[i] == before[i + 1]);
                        } else {
                            assert(after[i] == before[i]);
                        }
                    }
                }
            }
        }
        let ghost named = name;
        let r = self.cache.minted(name, leaf);
        proof {
            if r is Some {
                let kept = fifo::remembered(
                    old(self).remembered(),
                    old(self).capacity(),
                    named,
                    *(r->0),
                );
                assert(kept.last().0@ == host@);
            }
        }
        r
    }
}

/// Whether a leaf is remembered for a host.
pub open spec fn is_known(entries: Seq<(String, Leaf)>, host: Seq<char>) -> bool {
    exists|i: int| 0 <= i < entries.len() && (#[trigger] entries[i]).0@ == host
}

/// An authority is brought back exactly if both its keys can be read and its leaves' key can
/// sign; the first that fails is reported, in the words of the failure.
pub proof fn an_authority_comes_back_with_its_keys(
    root_der: Vec<u8>,
    root_key: Vec<u8>,
    leaf_key: Vec<u8>,
    root: Result<(), String>,
    leaf: Result<(), String>,
    signer: Result<(), String>,
    r: Result<CertificateAuthority, CaError>,
)
    requires
        call_ensures(restored, (root_der, root_key, leaf_key, root, leaf, signer), r),
    ensures
        r is Ok <==> root is Ok && leaf is Ok && signer is Ok,
        r matches Ok(a) ==> a@.root_der == root_der@ && a@.root_key == root_key@ && a@.leaf_key == leaf_key@,
        root matches Err(e) ==> (r->Err_0 matches CaError::KeyGeneration(t) && t@ == e@),
        root is Ok && leaf is Err ==> (r->Err_0 matches CaError::KeyGeneration(t) && t@ == leaf->Err_0@),
        root is Ok && leaf is Ok && signer is Err ==> (r->Err_0 matches CaError::KeyLoading(t) && t@ == signer->Err_0@),
{
}

/// An authority is made exactly if every step of making it succeeds; the first that fails is
/// reported, in the words of the failure.
pub proof fn an_authority_is_made_step_by_step(
    root_key: Result<Vec<u8>, String>,
    root_der: Result<Vec<u8>, String>,
    leaf_key: Result<Vec<u8>, String>,
    signer: Result<(), String>,
    r: Result<CertificateAuthority, CaError>,
)
    requires
        call_ensures(generated, (root_key, root_der, leaf_key, signer), r),
    ensures
        r is Ok <==> root_key is Ok && root_der is Ok && leaf_key is Ok && signer is Ok,
        r matches Ok(a) ==> a@.root_der == root_der->Ok_0@ && a@.root_key == root_key->Ok_0@ && a@.leaf_key
            == leaf_key->Ok_0@,
        root_key is Ok && root_der is Err ==> (r->Err_0 matches CaError::Signing(t) && t@ == root_der->Err_0@),
        root_key is Err ==> r->Err_0 is KeyGeneration,
{
}

/// A host that is known is served the leaf that is remembered for it, and nothing is minted;
/// every leaf that is served is the authority's own, for that very host, over its one key.
pub proof fn a_known_host_keeps_its_leaf(m: &mut MitmResolver, host: &str, r: Option<&Leaf>)
    requires
        old(m).wf(),
        call_ensures(MitmResolver::leaf, (m, host), r),
    ensures
        is_known(old(m).remembered(), host@) ==> r is Some && final(m).remembered() == old(m).remembered() && exists|
            i: int,
        |
            0 <= i < old(m).remembered().len() && (#[trigger] old(m).remembered()[i]).0@ == host@
                && old(m).remembered()[i].1 == *r->0,
        r matches Some(leaf) ==> leaf.key@ == old(m).authority().leaf_key && leaf.cert@.len() == 1,
        r is None ==> final(m).remembered() == old(m).remembered(),
        r is Some && !is_known(old(m).remembered(), host@) ==> final(m).remembered().len() > 0
            && final(m).remembered().last().0@ == host@ && final(m).remembered().last().1 == *r->0,
        final(m).authority() == old(m).authority(),
{
    if r is Some && !is_known(old(m).remembered(), host@) {
        let name = choose|name: String|
            name@ == host@ && final(m).remembered() == #[trigger] fifo::remembered(
                old(m).remembered(),
                old(m).capacity(),
                name,
                *r->0,
            );
        assert(final(m).remembered().last() == (name, *r->0));
    }
}

} // verus!
