//! The certificate authority's stored material, and what its certificates say.
//!
//! Only the root is kept across restarts: its certificate, which is public, and
//! the two private keys, which are packed into one secret.

use vstd::prelude::*;

use crate::fields::bytes_of;
#[allow(unused_imports)]
use crate::fifo;
use crate::fifo::BoundedFifo;
#[allow(unused_imports)]
use crate::fifo::MemoKey;
#[allow(unused_imports)]
use crate::reader;
use crate::reader::Reader;
use crate::text::push_text;

verus! {

/// Why certificates cannot be had.
#[derive(Clone, Debug, PartialEq, Eq)]
pub enum CaError {
    /// No key could be generated, or a stored one not be read.
    KeyGeneration(String),
    /// A certificate could not be signed.
    Signing(String),
    /// The leaf key could not be loaded.
    KeyLoading(String),
    /// The stored material is not intact.
    Material,
    /// The stored certificate and keys belong to different authorities.
    Mismatched,
}

impl CaError {
    pub fn text(&self) -> (r: String)
        ensures
            r@ == (match self {
                CaError::KeyGeneration(e) => "could not generate a key pair: "@ + e@,
                CaError::Signing(e) => "could not sign a certificate: "@ + e@,
                CaError::KeyLoading(e) => "could not load the leaf key: "@ + e@,
                CaError::Material => "stored key material is not intact"@,
                CaError::Mismatched => "the stored certificate was not issued to the stored key"@,
            }),
    {
        let mut r = String::new();
        match self {
            CaError::KeyGeneration(e) => {
                push_text(&mut r, "could not generate a key pair: ");
                push_text(&mut r, e.as_str());
                assert(r@ =~= "could not generate a key pair: "@ + e@);
            },
            CaError::Signing(e) => {
                push_text(&mut r, "could not sign a certificate: ");
                push_text(&mut r, e.as_str());
                assert(r@ =~= "could not sign a certificate: "@ + e@);
            },
            CaError::KeyLoading(e) => {
                push_text(&mut r, "could not load the leaf key: ");
                push_text(&mut r, e.as_str());
                assert(r@ =~= "could not load the leaf key: "@ + e@);
            },
            CaError::Material => {
                push_text(&mut r, "stored key material is not intact");
                assert(r@ =~= "stored key material is not intact"@);
            },
            CaError::Mismatched => {
                push_text(&mut r, "the stored certificate was not issued to the stored key");
                assert(r@ =~= "the stored certificate was not issued to the stored key"@);
            },
        }
        r
    }
}

/// The version of the packed form.
pub const VERSION: u8 = 1;

/// A length in four bytes, most significant first.
pub open spec fn length_bytes(n: u32) -> Seq<u8> {
    seq![
        (n / 0x100_0000) as u8,
        (n / 0x1_0000 % 256) as u8,
        (n / 256 % 256) as u8,
        (n % 256) as u8,
    ]
}

/// Two keys as one secret: the version, then each key behind its length.
pub open spec fn packed(root: Seq<u8>, leaf: Seq<u8>) -> Seq<u8> {
    seq![VERSION] + length_bytes(root.len() as u32) + root + length_bytes(leaf.len() as u32) + leaf
}

/// A key behind its length, and what follows it.
pub open spec fn key_in(s: Seq<u8>) -> Option<(Seq<u8>, Seq<u8>)> {
    if s.len() < 4 {
        None
    } else {
        reader::taken(s.skip(4), reader::four(s) as int)
    }
}

/// The two keys of a secret, if it is nothing but them.
pub open spec fn unpacked(s: Seq<u8>) -> Option<(Seq<u8>, Seq<u8>)> {
    if s.len() < 1 || s[0] != VERSION {
        None
    } else {
        match key_in(s.skip(1)) {
            None => None,
            Some((root, rest)) => match key_in(rest) {
                Some((leaf, end)) if end.len() == 0 => Some((root, leaf)),
                _ => None,
            },
        }
    }
}

/// The packed private keys of the root and of the leaves.
#[derive(Clone)]
pub struct CaKeys(Vec<u8>);

impl View for CaKeys {
    type V = Seq<u8>;

    closed spec fn view(&self) -> Seq<u8> {
        self.0@
    }
}

fn push_length(into: &mut Vec<u8>, n: u32)
    ensures
        final(into)@ == old(into)@ + length_bytes(n),
{
    into.push((n / 0x100_0000) as u8);
    into.push((n / 0x1_0000 % 256) as u8);
    into.push((n / 256 % 256) as u8);
    into.push((n % 256) as u8);
    assert(into@ =~= old(into)@ + length_bytes(n));
}

fn read_key<'a>(reader: &mut Reader<'a>) -> (r: Option<&'a [u8]>)
    ensures
        match r {
            Some(key) => key_in(old(reader)@) == Some((key@, final(reader)@)),
            None => key_in(old(reader)@) is None,
        },
{
    match reader.u32() {
        Some(n) => reader.take(n as usize),
        None => None,
    }
}

impl CaKeys {
    pub fn as_bytes(&self) -> (r: &[u8])
        ensures
            r@ == self@,
    {
        self.0.as_slice()
    }

    pub fn from_bytes(bytes: Vec<u8>) -> (r: Self)
        ensures
            r@ == bytes@,
    {
        CaKeys(bytes)
    }

    pub fn pack(root: &[u8], leaf: &[u8]) -> (r: Self)
        requires
            root@.len() <= u32::MAX,
            leaf@.len() <= u32::MAX,
        ensures
            r@ == packed(root@, leaf@),
    {
        let mut bytes: Vec<u8> = Vec::new();
        bytes.push(VERSION);
        push_length(&mut bytes, root.len() as u32);
        bytes.extend_from_slice(root);
        push_length(&mut bytes, leaf.len() as u32);
        bytes.extend_from_slice(leaf);
        assert(bytes@ =~= packed(root@, leaf@));
        CaKeys(bytes)
    }

    /// The root's key and the leaves'.
    pub fn unpack(&self) -> (r: Result<(&[u8], &[u8]), CaError>)
        ensures
            match unpacked(self@) {
                Some((root, leaf)) => r is Ok && r->Ok_0.0@ == root && r->Ok_0.1@ == leaf,
                None => r is Err && r->Err_0 is Material,
            },
    {
        let mut reader = Reader::new(self.0.as_slice());
        match reader.u8() {
            Some(version) => {
                if version != VERSION {
                    return Err(CaError::Material);
                }
            },
            None => {
                return Err(CaError::Material);
            },
        }
        let root: &[u8] = match read_key(&mut reader) {
            Some(key) => key,
            None => {
                return Err(CaError::Material);
            },
        };
        let leaf: &[u8] = match read_key(&mut reader) {
            Some(key) => key,
            None => {
                return Err(CaError::Material);
            },
        };
        if !reader.is_empty() {
            return Err(CaError::Material);
        }
        Ok((root, leaf))
    }
}

proof fn lemma_length(n: u32, rest: Seq<u8>)
    ensures
        reader::four(length_bytes(n) + rest) == n,
        (length_bytes(n) + rest).skip(4) == rest,
{
    let s = length_bytes(n) + rest;
    assert(s[0] == n / 0x100_0000);
    assert(s[1] == n / 0x1_0000 % 256);
    assert(s[2] == n / 256 % 256);
    assert(s[3] == n % 256);
    assert(s.skip(4) =~= rest);
}

proof fn lemma_length_back(s: Seq<u8>)
    requires
        s.len() >= 4,
    ensures
        length_bytes(reader::four(s)) == s.take(4),
{
    let n = reader::four(s);
    assert(n == s[0] * 0x100_0000 + s[1] * 0x1_0000 + s[2] * 256 + s[3]);
    assert(n / 0x100_0000 == s[0]);
    assert(n / 0x1_0000 == s[0] * 256 + s[1]);
    assert(n / 256 == s[0] * 0x1_0000 + s[1] * 256 + s[2]);
    assert(length_bytes(n) =~= s.take(4));
}

/// Unpacking gives back the keys that were packed.
pub proof fn unpacking_undoes_packing(root: Seq<u8>, leaf: Seq<u8>)
    requires
        root.len() <= u32::MAX,
        leaf.len() <= u32::MAX,
    ensures
        unpacked(packed(root, leaf)) == Some((root, leaf)),
{
    let s = packed(root, leaf);
    let a = length_bytes(root.len() as u32);
    let b = length_bytes(leaf.len() as u32);
    let rest = b + leaf;
    assert(s.skip(1) =~= a + (root + rest));
    lemma_length(root.len() as u32, root + rest);
    assert((root + rest).take(root.len() as int) =~= root);
    assert((root + rest).skip(root.len() as int) =~= rest);
    lemma_length(leaf.len() as u32, leaf);
    assert(leaf.take(leaf.len() as int) =~= leaf);
    assert(leaf.skip(leaf.len() as int) =~= seq![]);
}

/// A secret that unpacks is the packing of its keys: nothing else is accepted,
/// not a byte more or less.
pub proof fn only_packed_keys_unpack(s: Seq<u8>)
    requires
        unpacked(s) is Some,
    ensures
        s == packed((unpacked(s)->0).0, (unpacked(s)->0).1),
{
    let t = s.skip(1);
    let (root, rest) = key_in(t)->0;
    let (leaf, end) = key_in(rest)->0;
    lemma_length_back(t);
    lemma_length_back(rest);
    assert(s =~= seq![VERSION] + t);
    assert(t =~= t.take(4) + root + rest);
    assert(rest =~= rest.take(4) + leaf);
    assert(root.len() as u32 == reader::four(t));
    assert(leaf.len() as u32 == reader::four(rest));
}

/// What checking a certificate against a key found.
#[derive(Clone, Copy, Debug, PartialEq, Eq, Structural)]
pub enum Pairing {
    /// The key or the certificate could not be read.
    Unreadable,
    /// The certificate was not signed with the key.
    Unpaired,
    /// The certificate was signed with the key.
    Paired,
}

/// The root's certificate and the packed keys.
#[derive(Clone)]
pub struct CaMaterial {
    pub root_certificate: Vec<u8>,
    pub keys: CaKeys,
}

impl CaMaterial {
    pub open spec fn certificate(&self) -> Seq<u8> {
        self.root_certificate@
    }

    pub open spec fn secret(&self) -> Seq<u8> {
        self.keys@
    }

    /// Joins what was stored in two places, given what checking the certificate
    /// against the root's key found.
    pub fn from_parts(root_certificate: Vec<u8>, keys: CaKeys, pairing: Pairing) -> (r: Result<
        Self,
        CaError,
    >)
        ensures
            r is Ok == (unpacked(keys@) is Some && pairing == Pairing::Paired),
            r matches Ok(m) ==> m.certificate() == root_certificate@ && m.secret() == keys@,
            r matches Err(e) ==> if unpacked(keys@) is Some && pairing == Pairing::Unpaired {
                e is Mismatched
            } else {
                e is Material
            },
    {
        match keys.unpack() {
            Ok(_) => {},
            Err(_) => {
                return Err(CaError::Material);
            },
        }
        match pairing {
            Pairing::Unreadable => Err(CaError::Material),
            Pairing::Unpaired => Err(CaError::Mismatched),
            Pairing::Paired => Ok(CaMaterial { root_certificate, keys }),
        }
    }

    /// The material of an authority with these keys.
    pub fn of(root_certificate: &[u8], root_key: &[u8], leaf_key: &[u8]) -> (r: Self)
        requires
            root_key@.len() <= u32::MAX,
            leaf_key@.len() <= u32::MAX,
        ensures
            r.certificate() == root_certificate@,
            r.secret() == packed(root_key@, leaf_key@),
    {
        CaMaterial {
            root_certificate: bytes_of(root_certificate),
            keys: CaKeys::pack(root_key, leaf_key),
        }
    }

    pub fn root_certificate(&self) -> (r: &[u8])
        ensures
            r@ == self.certificate(),
    {
        self.root_certificate.as_slice()
    }

    pub fn keys(&self) -> (r: &CaKeys)
        ensures
            r@ == self.secret(),
    {
        &self.keys
    }
}

/// Whether an authority is made or brought back.
pub enum Trust {
    Generate,
    Restore(CaMaterial),
}

/// A day of the calendar.
#[derive(Clone, Copy, Debug, PartialEq, Eq, Structural)]
pub struct Day {
    pub year: i32,
    pub month: u8,
    pub day: u8,
}

/// What a key may be used for.
#[derive(Clone, Copy, Debug, PartialEq, Eq, Structural)]
pub enum Usage {
    CertificateSigning,
    RevocationSigning,
    DigitalSignature,
}

/// What a certificate says.
#[derive(Clone, Debug, PartialEq, Eq)]
pub struct CertificateProfile {
    pub common_name: String,
    pub organization: Option<String>,
    /// The host that the certificate is for.
    pub host: Option<String>,
    /// Whether the certificate may sign others.
    pub authority: bool,
    pub usages: Vec<Usage>,
    /// Whether it may be used to authenticate a server.
    pub server: bool,
    pub not_before: Day,
    pub not_after: Day,
}

/// The days between which certificates are valid.
pub open spec fn validity() -> (Day, Day) {
    (Day { year: 2020, month: 1, day: 1 }, Day { year: 2100, month: 1, day: 1 })
}

/// What a certificate says, over texts.
pub struct Said {
    pub common_name: Seq<char>,
    pub organization: Option<Seq<char>>,
    pub host: Option<Seq<char>>,
    pub authority: bool,
    pub usages: Seq<Usage>,
    pub server: bool,
    pub not_before: Day,
    pub not_after: Day,
}

impl View for CertificateProfile {
    type V = Said;

    open spec fn view(&self) -> Said {
        Said {
            common_name: self.common_name@,
            organization: match self.organization {
                Some(name) => Some(name@),
                None => None,
            },
            host: match self.host {
                Some(name) => Some(name@),
                None => None,
            },
            authority: self.authority,
            usages: self.usages@,
            server: self.server,
            not_before: self.not_before,
            not_after: self.not_after,
        }
    }
}

/// What the root says: it may sign certificates, and names no host.
pub open spec fn root_says() -> Said {
    Said {
        common_name: "Boreas Root CA"@,
        organization: Some("Boreas"@),
        host: None,
        authority: true,
        usages: seq![
            Usage::CertificateSigning,
            Usage::RevocationSigning,
            Usage::DigitalSignature,
        ],
        server: false,
        not_before: validity().0,
        not_after: validity().1,
    }
}

/// What the leaf of a host says: it names the host, and signs nothing.
pub open spec fn leaf_says(host: Seq<char>) -> Said {
    Said {
        common_name: host,
        organization: None,
        host: Some(host),
        authority: false,
        usages: seq![Usage::DigitalSignature],
        server: true,
        not_before: validity().0,
        not_after: validity().1,
    }
}

/// What the root says.
pub fn root_profile() -> (r: CertificateProfile)
    ensures
        r@ == root_says(),
{
    let r = CertificateProfile {
        common_name: "Boreas Root CA".to_owned(),
        organization: Some("Boreas".to_owned()),
        host: None,
        authority: true,
        usages: vec![
            Usage::CertificateSigning,
            Usage::RevocationSigning,
            Usage::DigitalSignature,
        ],
        server: false,
        not_before: Day { year: 2020, month: 1, day: 1 },
        not_after: Day { year: 2100, month: 1, day: 1 },
    };
    assert(r@.usages =~= root_says().usages);
    r
}

/// What the leaf of a host says.
pub fn leaf_profile(host: &str) -> (r: CertificateProfile)
    ensures
        r@ == leaf_says(host@),
{
    let r = CertificateProfile {
        common_name: host.to_owned(),
        organization: None,
        host: Some(host.to_owned()),
        authority: false,
        usages: vec![Usage::DigitalSignature],
        server: true,
        not_before: Day { year: 2020, month: 1, day: 1 },
        not_after: Day { year: 2100, month: 1, day: 1 },
    };
    assert(r@.usages =~= leaf_says(host@).usages);
    r
}

/// Leaves that were minted, the oldest forgotten first.
pub struct LeafCache<V> {
    memo: BoundedFifo<String, V>,
}

impl<V> View for LeafCache<V> {
    type V = Seq<(String, V)>;

    closed spec fn view(&self) -> Seq<(String, V)> {
        self.memo@
    }
}

impl<V> LeafCache<V> {
    pub closed spec fn capacity(&self) -> int {
        self.memo.capacity()
    }

    /// No more leaves than the capacity, and no host twice.
    pub open spec fn wf(&self) -> bool {
        &&& self.capacity() > 0
        &&& self@.len() <= self.capacity()
        &&& forall|i: int, j: int|
            0 <= i < j < self@.len() ==> (#[trigger] self@[i]).0@ != (#[trigger] self@[j]).0@
    }

    pub fn new(capacity: usize) -> (r: Self)
        requires
            capacity > 0,
        ensures
            r.wf(),
            r.capacity() == capacity,
            r@.len() == 0,
    {
        LeafCache { memo: BoundedFifo::new(capacity) }
    }

    /// The leaf that is remembered for a host.
    pub fn hit(&self, host: &String) -> (r: Option<&V>)
        ensures
            match r {
                Some(v) => exists|i: int|
                    0 <= i < self@.len() && (#[trigger] self@[i]).0@ == host@ && self@[i].1 == *v,
                None => forall|i: int| 0 <= i < self@.len() ==> (#[trigger] self@[i]).0@ != host@,
            },
    {
        match self.memo.get(host) {
            Some(v) => {
                proof {
                    let i = choose|i: int|
                        0 <= i < self.memo@.len() && (#[trigger] self.memo@[i]).0.id() == host.id()
                            && self.memo@[i].1 == *v;
                    assert(self@[i].0@ == host@);
                }
                Some(v)
            },
            None => {
                assert forall|i: int| 0 <= i < self@.len() implies (#[trigger] self@[i]).0@
                    != host@ by {
                    assert(!fifo::held(self.memo@, *host));
                    assert(self.memo@[i].0.id() != host.id());
                }
                None
            },
        }
    }

    /// Remembers what was minted for a host that missed. A failure is not
    /// remembered, so it is tried again.
    pub fn minted(&mut self, host: String, leaf: Option<V>) -> (r: Option<&V>)
        requires
            old(self).wf(),
            forall|i: int| 0 <= i < old(self)@.len() ==> (#[trigger] old(self)@[i]).0@ != host@,
        ensures
            final(self).wf(),
            final(self).capacity() == old(self).capacity(),
            match leaf {
                Some(v) => r == Some(&v) && final(self)@ == fifo::remembered(
                    old(self)@,
                    old(self).capacity(),
                    host,
                    v,
                ),
                None => r is None && final(self)@ == old(self)@,
            },
    {
        match leaf {
            Some(v) => {
                proof {
                    assert forall|i: int| 0 <= i < self.memo@.len() implies (
                    #[trigger] self.memo@[i]).0.id() != host.id() by {
                        assert(self@[i].0@ != host@);
                    }
                    assert(!fifo::held(self.memo@, host));
                    assert(self.memo.wf());
                }
                let make = move || -> (made: V)
                    ensures
                        made == v,
                    {
                        v
                    };
                Some(self.memo.get_or_insert_with(host, make))
            },
            None => None,
        }
    }
}

/// How two keys are stored: a one, and each key behind its length in four bytes, most
/// significant first. Nothing else unpacks, and it unpacks to those keys in that order.
pub proof fn keys_are_stored_behind_their_lengths(root: Seq<u8>, leaf: Seq<u8>)
    requires
        root.len() <= u32::MAX,
        leaf.len() <= u32::MAX,
    ensures
        ({
            let s = packed(root, leaf);
            let n = root.len() as int;
            &&& s.len() == 9 + root.len() + leaf.len()
            &&& s[0] == 1
            &&& s[1] * 0x100_0000 + s[2] * 0x1_0000 + s[3] * 256 + s[4] == root.len()
            &&& s.subrange(5, 5 + n) == root
            &&& s[5 + n] * 0x100_0000 + s[6 + n] * 0x1_0000 + s[7 + n] * 256 + s[8 + n] == leaf.len()
            &&& s.skip(9 + n) == leaf
            &&& unpacked(s) == Some((root, leaf))
        }),
{
    let s = packed(root, leaf);
    let n = root.len() as int;
    unpacking_undoes_packing(root, leaf);
    let a = length_bytes(root.len() as u32);
    let b = length_bytes(leaf.len() as u32);
    lemma_length(root.len() as u32, seq![]);
    lemma_length(leaf.len() as u32, seq![]);
    assert(a + seq![] =~= a);
    assert(b + seq![] =~= b);
    assert(s[1] == a[0] && s[2] == a[1] && s[3] == a[2] && s[4] == a[3]);
    assert(s[5 + n] == b[0] && s[6 + n] == b[1] && s[7 + n] == b[2] && s[8 + n] == b[3]);
    assert(s.subrange(5, 5 + n) =~= root);
    assert(s.skip(9 + n) =~= leaf);
}

/// Stored parts make an authority's material exactly if the keys are intact and the
/// certificate was signed with the root's key; one that was signed with another is told
/// from what cannot be read.
pub proof fn only_a_paired_certificate_is_taken_back(
    certificate: Vec<u8>,
    keys: CaKeys,
    pairing: Pairing,
    r: Result<CaMaterial, CaError>,
)
    requires
        call_ensures(CaMaterial::from_parts, (certificate, keys, pairing), r),
    ensures
        r is Ok <==> unpacked(keys@) is Some && pairing == Pairing::Paired,
        unpacked(keys@) is None ==> r is Err && r->Err_0 is Material,
        unpacked(keys@) is Some && pairing == Pairing::Unpaired ==> r is Err && r->Err_0 is Mismatched,
        unpacked(keys@) is Some && pairing == Pairing::Unreadable ==> r is Err && r->Err_0 is Material,
        r is Ok ==> r->Ok_0.certificate() == certificate@ && r->Ok_0.secret() == keys@,
{
}

/// The root may sign certificates and serves no host. A leaf names its one host, serves
/// it, and may sign nothing but what it sends. Both are valid from 2020 to 2100.
pub proof fn only_the_root_signs(host: &str, leaf: CertificateProfile, root: CertificateProfile)
    requires
        call_ensures(leaf_profile, (host,), leaf),
        call_ensures(root_profile, (), root),
    ensures
        root@.authority,
        root@.usages.contains(Usage::CertificateSigning),
        root@.host is None,
        !root@.server,
        !leaf@.authority,
        !leaf@.usages.contains(Usage::CertificateSigning) && !leaf@.usages.contains(Usage::RevocationSigning),
        leaf@.usages.contains(Usage::DigitalSignature),
        leaf@.host == Some(host@),
        leaf@.common_name == host@,
        leaf@.server,
        leaf@.not_before == root@.not_before && leaf@.not_after == root@.not_after,
        root@.not_before.year == 2020 && root@.not_after.year == 2100,
{
    assert(root@.usages[0] == Usage::CertificateSigning);
    assert(leaf@.usages[0] == Usage::DigitalSignature);
    assert(forall|i: int| 0 <= i < leaf@.usages.len() ==> leaf@.usages[i] == Usage::DigitalSignature);
}

} // verus!
