//! Mirroring a client: what its first message offers, and what an originating
//! leg offers in its place.

use vstd::prelude::*;

#[allow(unused_imports)]
use crate::mitm;
use crate::mitm::Wire;
#[allow(unused_imports)]
use crate::name;
use crate::name::DomainName;
#[allow(unused_imports)]
use crate::reader;
use crate::reader::Reader;
#[allow(unused_imports)]
use crate::text;
use crate::text::{push_decimal, push_text, utf8_text};

verus! {

pub const EXTENSION_SERVER_NAME: u16 = 0x0000;

pub const EXTENSION_SUPPORTED_GROUPS: u16 = 0x000a;

pub const EXTENSION_SIGNATURE_ALGORITHMS: u16 = 0x000d;

pub const EXTENSION_COMPRESS_CERTIFICATE: u16 = 0x001b;

pub const EXTENSION_ALPN: u16 = 0x0010;

pub const HANDSHAKE_CLIENT_HELLO: u8 = 0x01;

pub const NAME_TYPE_HOST: u8 = 0x00;

/// The identifier of Brotli among certificate compressions.
pub const BROTLI_ALGORITHM: u16 = 2;

/// The reserved values that a client sends to keep servers tolerant: both
/// bytes the same, each ending in the nibble `a`.
pub open spec fn grease(value: u16) -> bool {
    value / 256 == value % 256 && value % 16 == 10
}

pub fn is_grease(value: u16) -> (r: bool)
    ensures
        r == grease(value),
{
    value / 256 == value % 256 && value % 16 == 10
}

/// The name of a group that can be offered.
pub open spec fn group_text(codepoint: u16) -> Option<Seq<char>> {
    if codepoint == 23 {
        Some("P-256"@)
    } else if codepoint == 24 {
        Some("P-384"@)
    } else if codepoint == 25 {
        Some("P-521"@)
    } else if codepoint == 29 {
        Some("X25519"@)
    } else if codepoint == 0x0202 {
        Some("MLKEM1024"@)
    } else if codepoint == 0x11ec {
        Some("X25519MLKEM768"@)
    } else if codepoint == 0x6399 {
        Some("X25519Kyber768Draft00"@)
    } else {
        None
    }
}

pub fn group_name(codepoint: u16) -> (r: Option<&'static str>)
    ensures
        match r {
            Some(name) => group_text(codepoint) == Some(name@),
            None => group_text(codepoint) is None,
        },
{
    if codepoint == 23 {
        Some("P-256")
    } else if codepoint == 24 {
        Some("P-384")
    } else if codepoint == 25 {
        Some("P-521")
    } else if codepoint == 29 {
        Some("X25519")
    } else if codepoint == 0x0202 {
        Some("MLKEM1024")
    } else if codepoint == 0x11ec {
        Some("X25519MLKEM768")
    } else if codepoint == 0x6399 {
        Some("X25519Kyber768Draft00")
    } else {
        None
    }
}

/// The features of a client's first message that an originating leg repeats.
#[derive(Clone, Debug, PartialEq, Eq)]
pub struct ClientProfile {
    /// Supported groups, in the client's order.
    pub groups: Vec<&'static str>,
    /// Signature algorithms, in the client's order.
    pub sigalgs: Vec<u16>,
    /// Certificate compressions.
    pub compression: Vec<u16>,
    /// Whether the client sent reserved values.
    pub grease: bool,
}

/// A profile over texts.
pub struct Profile {
    pub groups: Seq<Seq<char>>,
    pub sigalgs: Seq<u16>,
    pub compression: Seq<u16>,
    pub grease: bool,
}

/// The texts that a list of names holds.
pub open spec fn texts(names: Seq<&'static str>) -> Seq<Seq<char>> {
    Seq::new(names.len(), |i: int| names[i]@)
}

impl View for ClientProfile {
    type V = Profile;

    open spec fn view(&self) -> Profile {
        Profile {
            groups: texts(self.groups@),
            sigalgs: self.sigalgs@,
            compression: self.compression@,
            grease: self.grease,
        }
    }
}

/// The profile that overrides nothing.
pub open spec fn empty_profile() -> Profile {
    Profile { groups: seq![], sigalgs: seq![], compression: seq![], grease: false }
}

impl Default for ClientProfile {
    fn default() -> (r: Self)
        ensures
            r@ == empty_profile(),
    {
        let r = ClientProfile {
            groups: Vec::new(),
            sigalgs: Vec::new(),
            compression: Vec::new(),
            grease: false,
        };
        proof {
            assert(r@.groups =~= seq![]);
            assert(r@.sigalgs =~= seq![]);
            assert(r@.compression =~= seq![]);
        }
        r
    }
}

impl ClientProfile {
    /// The profile of a leg that has no client to mirror.
    pub fn chrome() -> (r: Self)
        ensures
            r@ == (Profile {
                groups: seq!["X25519MLKEM768"@, "X25519"@, "P-256"@, "P-384"@],
                sigalgs: seq![
                    0x0403u16,
                    0x0804,
                    0x0401,
                    0x0503,
                    0x0805,
                    0x0501,
                    0x0806,
                    0x0601,
                ],
                compression: seq![BROTLI_ALGORITHM],
                grease: true,
            }),
    {
        let mut groups: Vec<&'static str> = Vec::new();
        groups.push("X25519MLKEM768");
        groups.push("X25519");
        groups.push("P-256");
        groups.push("P-384");
        let sigalgs: Vec<u16> = vec![0x0403, 0x0804, 0x0401, 0x0503, 0x0805, 0x0501, 0x0806, 0x0601];
        let compression: Vec<u16> = vec![BROTLI_ALGORITHM];
        let r = ClientProfile { groups, sigalgs, compression, grease: true };
        proof {
            assert(r@.groups =~= seq!["X25519MLKEM768"@, "X25519"@, "P-256"@, "P-384"@]);
            assert(r@.sigalgs =~= seq![
                0x0403u16,
                0x0804,
                0x0401,
                0x0503,
                0x0805,
                0x0501,
                0x0806,
                0x0601,
            ]);
            assert(r@.compression =~= seq![BROTLI_ALGORITHM]);
        }
        r
    }

    /// Whether the profile overrides nothing.
    pub fn is_empty(&self) -> (r: bool)
        ensures
            r == (self@ == empty_profile()),
    {
        let r: bool = self.groups.len() == 0 && self.sigalgs.len() == 0 && self.compression.len()
            == 0 && !self.grease;
        proof {
            if r {
                assert(self@.groups =~= seq![]);
                assert(self@.sigalgs =~= seq![]);
                assert(self@.compression =~= seq![]);
            } else {
                assert(empty_profile().groups.len() == 0);
                assert(self@.groups.len() == self.groups@.len());
            }
        }
        r
    }

    pub fn groups(&self) -> (r: &[&'static str])
        ensures
            texts(r@) == self@.groups,
    {
        self.groups.as_slice()
    }

    /// Whether the client takes certificates that Brotli compressed.
    pub fn compresses_certificates(&self) -> (r: bool)
        ensures
            r == self@.compression.contains(BROTLI_ALGORITHM),
    {
        let n: usize = self.compression.len();
        let mut i: usize = 0;
        while i < n
            invariant
                i <= n,
                n == self.compression@.len(),
                forall|j: int| 0 <= j < i ==> self.compression@[j] != BROTLI_ALGORITHM,
            decreases n - i,
        {
            if self.compression[i] == BROTLI_ALGORITHM {
                assert(self.compression@[i as int] == BROTLI_ALGORITHM);
                return true;
            }
            i += 1;
        }
        false
    }
}

/// The protocols of a client's offer that can be terminated, in its order.
#[derive(Clone, Debug, PartialEq, Eq)]
pub struct Offer(pub Vec<Wire>);

impl View for Offer {
    type V = Seq<Wire>;

    open spec fn view(&self) -> Seq<Wire> {
        self.0@
    }
}

impl Default for Offer {
    fn default() -> (r: Self)
        ensures
            r@ == Seq::<Wire>::empty(),
    {
        Offer(Vec::new())
    }
}

/// The wires that a list of names adds to `found`: those not found yet, in
/// order, up to where the list breaks off.
pub open spec fn wires_in(list: Seq<u8>, found: Seq<Wire>) -> Seq<Wire>
    decreases list.len(),
{
    match reader::short_field(list) {
        None => found,
        Some((name, rest)) => match mitm::wire_of(name) {
            Some(wire) if !found.contains(wire) => wires_in(rest, found.push(wire)),
            _ => wires_in(rest, found),
        },
    }
}

/// The offer of an extension's body.
pub open spec fn offer_in(body: Seq<u8>) -> Seq<Wire> {
    match reader::long_field(body) {
        None => seq![],
        Some((list, _)) => wires_in(list, seq![]),
    }
}

fn has_wire(wires: &Vec<Wire>, wire: Wire) -> (r: bool)
    ensures
        r == wires@.contains(wire),
{
    let n: usize = wires.len();
    let mut i: usize = 0;
    while i < n
        invariant
            i <= n,
            n == wires@.len(),
            forall|j: int| 0 <= j < i ==> wires@[j] != wire,
        decreases n - i,
    {
        if wires[i] == wire {
            assert(wires@[i as int] == wire);
            return true;
        }
        i += 1;
    }
    false
}

/// The names with the length of each before it; a name too long for that is
/// left out.
pub open spec fn name_list(names: Seq<Seq<u8>>) -> Seq<u8>
    decreases names.len(),
{
    if names.len() == 0 {
        seq![]
    } else if names.last().len() <= 255 {
        name_list(names.drop_last()) + seq![names.last().len() as u8] + names.last()
    } else {
        name_list(names.drop_last())
    }
}

/// What a slice of slices holds.
pub open spec fn slices(v: Seq<&[u8]>) -> Seq<Seq<u8>> {
    Seq::new(v.len(), |i: int| v[i]@)
}

/// Writes names with the length of each before it.
pub fn alpn_list(protocols: &[&[u8]]) -> (r: Vec<u8>)
    ensures
        r@ == name_list(slices(protocols@)),
{
    let mut r: Vec<u8> = Vec::new();
    let n: usize = protocols.len();
    let mut i: usize = 0;
    let ghost all = slices(protocols@);
    assert(all.take(0) =~= seq![]);
    assert(r@ =~= seq![]);
    while i < n
        invariant
            i <= n,
            n == protocols@.len(),
            all == slices(protocols@),
            r@ == name_list(all.take(i as int)),
        decreases n - i,
    {
        let name: &[u8] = protocols[i];
        proof {
            assert(all.take(i + 1).drop_last() =~= all.take(i as int));
            assert(all.take(i + 1).last() == name@);
        }
        if name.len() <= 255 {
            let ghost before = r@;
            r.push(name.len() as u8);
            r.extend_from_slice(name);
            assert(r@ =~= before + seq![name@.len() as u8] + name@);
        }
        i += 1;
    }
    assert(all.take(n as int) =~= all);
    r
}

/// The names of wires.
pub open spec fn identifiers(wires: Seq<Wire>) -> Seq<Seq<u8>> {
    Seq::new(wires.len(), |i: int| mitm::identifier_of(wires[i]))
}

impl Offer {
    /// Reads an offer off an extension's body.
    pub fn read(body: &[u8]) -> (r: Self)
        ensures
            r@ == offer_in(body@),
    {
        let mut outer = Reader::new(body);
        let list: &[u8] = match outer.vector_u16() {
            Some(list) => list,
            None => {
                let r = Offer(Vec::new());
                assert(r@ =~= seq![]);
                return r;
            },
        };
        let mut wires: Vec<Wire> = Vec::new();
        let mut reader = Reader::new(list);
        assert(wires@ =~= seq![]);
        loop
            invariant_except_break
                wires_in(reader@, wires@) == wires_in(list@, seq![]),
            ensures
                wires@ == wires_in(list@, seq![]),
            decreases reader@.len(),
        {
            match reader.vector_u8() {
                None => {
                    break;
                },
                Some(name) => match Wire::from_identifier(name) {
                    Some(wire) => {
                        if !has_wire(&wires, wire) {
                            wires.push(wire);
                        }
                    },
                    None => {},
                },
            }
        }
        Offer(wires)
    }

    pub fn wires(&self) -> (r: &[Wire])
        ensures
            r@ == self@,
    {
        self.0.as_slice()
    }

    /// The offer as a list of names.
    pub fn encode(&self) -> (r: Vec<u8>)
        ensures
            r@ == name_list(identifiers(self@)),
    {
        let mut names: Vec<&[u8]> = Vec::new();
        let n: usize = self.0.len();
        let mut i: usize = 0;
        while i < n
            invariant
                i <= n,
                n == self@.len(),
                slices(names@) == identifiers(self@).take(i as int),
            decreases n - i,
        {
            let ghost before = names@;
            let id: &'static [u8] = self.0[i].identifier();
            names.push(id);
            assert(slices(names@) =~= slices(before).push(id@));
            assert(identifiers(self@)[i as int] == id@);
            assert(slices(names@) =~= identifiers(self@).take(i + 1));
            i += 1;
        }
        assert(identifiers(self@).take(n as int) =~= identifiers(self@));
        alpn_list(names.as_slice())
    }
}

/// The names of a list, up to where it breaks off.
pub open spec fn names_in(list: Seq<u8>) -> Seq<Seq<u8>>
    decreases list.len(),
{
    match reader::short_field(list) {
        None => seq![],
        Some((name, rest)) => seq![name] + names_in(rest),
    }
}

/// Where a wire is first named; behind the last name where it is not.
pub open spec fn first_named(names: Seq<Seq<u8>>, wire: Wire) -> int
    decreases names.len(),
{
    if names.len() == 0 {
        0
    } else if mitm::wire_of(names[0]) == Some(wire) {
        0
    } else {
        1 + first_named(names.skip(1), wire)
    }
}

proof fn lemma_first_named(names: Seq<Seq<u8>>, wire: Wire)
    ensures
        0 <= first_named(names, wire) <= names.len(),
        first_named(names, wire) < names.len() <==> exists|i: int|
            0 <= i < names.len() && mitm::wire_of(#[trigger] names[i]) == Some(wire),
    decreases names.len(),
{
    if names.len() > 0 {
        let rest = names.skip(1);
        lemma_first_named(rest, wire);
        if exists|i: int| 0 <= i < rest.len() && mitm::wire_of(#[trigger] rest[i]) == Some(wire) {
            let i = choose|i: int| 0 <= i < rest.len() && mitm::wire_of(#[trigger] rest[i]) == Some(wire);
            assert(names[i + 1] == rest[i]);
        }
        if exists|i: int| 0 <= i < names.len() && mitm::wire_of(#[trigger] names[i]) == Some(wire) {
            let i = choose|i: int| 0 <= i < names.len() && mitm::wire_of(#[trigger] names[i]) == Some(wire);
            if i > 0 {
                assert(rest[i - 1] == names[i]);
            }
        }
    }
}

proof fn lemma_wires_in(list: Seq<u8>, found: Seq<Wire>)
    ensures
        ({
            let names = names_in(list);
            let all = wires_in(list, found);
            &&& found.len() <= all.len()
            &&& all.take(found.len() as int) == found
            &&& forall|w: Wire| #[trigger]
                all.contains(w) <==> found.contains(w) || first_named(names, w) < names.len()
            &&& forall|i: int| found.len() <= i < all.len() ==> !found.contains(#[trigger] all[i])
            &&& forall|i: int, j: int|
                #![trigger all[i], all[j]]
                found.len() <= i < j < all.len() ==> first_named(names, all[i]) < first_named(
                    names,
                    all[j],
                )
        }),
    decreases list.len(),
{
    let names = names_in(list);
    let all = wires_in(list, found);
    match reader::short_field(list) {
        None => {
            assert(all.take(found.len() as int) =~= found);
        },
        Some((name, rest)) => {
            let more = names_in(rest);
            assert(names.skip(1) =~= more);
            assert(names[0] == name);
            assert forall|w: Wire| mitm::wire_of(name) != Some(w) implies #[trigger] first_named(names, w)
                == 1 + first_named(more, w) by {}
            let grows = mitm::wire_of(name) matches Some(wire) && !found.contains(wire);
            let next = if grows {
                found.push(mitm::wire_of(name)->0)
            } else {
                found
            };
            lemma_wires_in(rest, next);
            assert(all == wires_in(rest, next));
            assert(all.take(found.len() as int) =~= found) by {
                assert forall|i: int| 0 <= i < found.len() implies all[i] == found[i] by {
                    assert(all.take(next.len() as int)[i] == next[i]);
                }
            }
            if grows {
                let wire = mitm::wire_of(name)->0;
                assert(all.take(next.len() as int)[found.len() as int] == next[found.len() as int]);
                assert(all[found.len() as int] == wire);
                assert(next[found.len() as int] == wire);
                assert(next.contains(wire));
            }
            assert forall|w: Wire| next.contains(w) <==> found.contains(w) || (grows && Some(w)
                == mitm::wire_of(name)) by {
                if found.contains(w) {
                    let i = choose|i: int| 0 <= i < found.len() && found[i] == w;
                    assert(next[i] == w);
                }
            }
            assert forall|w: Wire| #[trigger] all.contains(w) <==> found.contains(w) || first_named(
                names,
                w,
            ) < names.len() by {
                lemma_first_named(more, w);
                lemma_first_named(names, w);
                assert(all.contains(w) <==> next.contains(w) || first_named(more, w) < more.len());
            }
            assert forall|i: int| found.len() <= i < all.len() implies !found.contains(
                #[trigger] all[i],
            ) by {
                if i >= next.len() {
                    assert(!next.contains(all[i]));
                }
            }
            assert forall|i: int, j: int|
                #![trigger all[i], all[j]]
                found.len() <= i < j < all.len() implies first_named(names, all[i]) < first_named(
                names,
                all[j],
            ) by {
                assert(j >= next.len());
                assert(!next.contains(all[j]));
                assert(!found.contains(all[j]));
                assert(mitm::wire_of(name) != Some(all[j]));
                lemma_first_named(more, all[j]);
                if i >= next.len() {
                    assert(!next.contains(all[i]));
                    assert(mitm::wire_of(name) != Some(all[i]));
                }
            }
        },
    }
}

/// An offer holds a wire exactly if its name is listed, in the order in which
/// the names are first listed.
pub proof fn an_offer_holds_what_is_listed(list: Seq<u8>, wire: Wire)
    ensures
        wires_in(list, seq![]).contains(wire) <==> exists|i: int|
            0 <= i < names_in(list).len() && mitm::wire_of(#[trigger] names_in(list)[i]) == Some(wire),
        forall|i: int, j: int|
            #![trigger wires_in(list, seq![])[i], wires_in(list, seq![])[j]]
            0 <= i < j < wires_in(list, seq![]).len() ==> first_named(
                names_in(list),
                wires_in(list, seq![])[i],
            ) < first_named(names_in(list), wires_in(list, seq![])[j]),
{
    lemma_wires_in(list, seq![]);
    lemma_first_named(names_in(list), wire);
}

/// Whether no wire stands twice.
pub open spec fn no_wire_twice(wires: Seq<Wire>) -> bool {
    forall|i: int, j: int| 0 <= i < j < wires.len() ==> wires[i] != wires[j]
}

/// An offer names no wire twice.
pub proof fn an_offer_names_no_wire_twice(list: Seq<u8>, found: Seq<Wire>)
    requires
        no_wire_twice(found),
    ensures
        no_wire_twice(wires_in(list, found)),
    decreases list.len(),
{
    match reader::short_field(list) {
        None => {},
        Some((name, rest)) => {
            match mitm::wire_of(name) {
                Some(wire) if !found.contains(wire) => {
                    assert forall|i: int, j: int|
                        0 <= i < j < found.push(wire).len() implies found.push(wire)[i]
                        != found.push(wire)[j] by {
                        if j == found.len() {
                            assert(found[i] != wire);
                        }
                    }
                    an_offer_names_no_wire_twice(rest, found.push(wire));
                },
                _ => {
                    an_offer_names_no_wire_twice(rest, found);
                },
            }
        },
    }
}

/// Reading undoes encoding: the list of an offer's names offers the same wires
/// in the same order.
pub proof fn an_offer_survives_its_encoding(wires: Seq<Wire>)
    requires
        no_wire_twice(wires),
    ensures
        wires_in(name_list(identifiers(wires)), seq![]) == wires,
{
    lemma_wires_of_list(wires, 0);
    assert(wires.take(0) =~= seq![]);
    assert(identifiers(wires).skip(0) =~= identifiers(wires));
}

proof fn lemma_name_list_front(names: Seq<Seq<u8>>)
    requires
        names.len() > 0,
        names[0].len() <= 255,
    ensures
        name_list(names) == seq![names[0].len() as u8] + names[0] + name_list(names.skip(1)),
    decreases names.len(),
{
    let head = seq![names[0].len() as u8] + names[0];
    if names.len() == 1 {
        assert(names.drop_last() =~= seq![]);
        assert(names.skip(1) =~= seq![]);
        assert(name_list(names) =~= head + name_list(names.skip(1)));
    } else {
        lemma_name_list_front(names.drop_last());
        assert(names.drop_last().skip(1) =~= names.skip(1).drop_last());
        assert(names.skip(1).last() == names.last());
        assert(name_list(names) =~= head + name_list(names.skip(1)));
    }
}

proof fn lemma_wires_of_list(wires: Seq<Wire>, i: int)
    requires
        0 <= i <= wires.len(),
        no_wire_twice(wires),
    ensures
        wires_in(name_list(identifiers(wires).skip(i)), wires.take(i)) == wires,
    decreases wires.len() - i,
{
    let names = identifiers(wires).skip(i);
    let list = name_list(names);
    if i == wires.len() {
        assert(names =~= seq![]);
        assert(list =~= seq![]);
        assert(wires.take(i) =~= wires);
    } else {
        let wire = wires[i];
        mitm::an_identifier_names_its_wire(wire);
        lemma_name_list_front(names);
        let rest = name_list(names.skip(1));
        let id = mitm::identifier_of(wire);
        assert(names[0] == id);
        assert(list.skip(1) =~= id + rest);
        assert(list[0] == id.len());
        assert(list.skip(1).take(id.len() as int) =~= id);
        assert(list.skip(1).skip(id.len() as int) =~= rest);
        assert(!wires.take(i).contains(wire)) by {
            if wires.take(i).contains(wire) {
                let j = choose|j: int| 0 <= j < i && wires.take(i)[j] == wire;
                assert(wires[j] == wires[i]);
            }
        }
        assert(wires.take(i).push(wire) =~= wires.take(i + 1));
        assert(names.skip(1) =~= identifiers(wires).skip(i + 1));
        lemma_wires_of_list(wires, i + 1);
    }
}

/// What one first message says: the host, the profile and the offer.
#[derive(Clone, Debug, PartialEq, Eq)]
pub struct Hello {
    pub host: Option<DomainName>,
    pub profile: ClientProfile,
    pub alpn: Offer,
}

/// A first message over texts.
pub struct Identity {
    pub host: Option<Seq<char>>,
    pub profile: Profile,
    pub alpn: Seq<Wire>,
}

impl View for Hello {
    type V = Identity;

    open spec fn view(&self) -> Identity {
        Identity {
            host: match self.host {
                Some(host) => Some(host@),
                None => None,
            },
            profile: self.profile@,
            alpn: self.alpn@,
        }
    }
}

/// The identity of a message that says nothing.
pub open spec fn no_identity() -> Identity {
    Identity { host: None, profile: empty_profile(), alpn: seq![] }
}

impl Default for Hello {
    fn default() -> (r: Self)
        ensures
            r@ == no_identity(),
    {
        let r = Hello { host: None, profile: ClientProfile::default(), alpn: Offer::default() };
        assert(r@.alpn =~= seq![]);
        r
    }
}

/// The numbers that `s` holds, two bytes each.
pub open spec fn numbers(s: Seq<u8>) -> Seq<u16>
    decreases s.len(),
{
    if s.len() < 2 {
        seq![]
    } else {
        seq![reader::two(s)] + numbers(s.skip(2))
    }
}

/// The numbers of a list behind a length of two bytes.
pub open spec fn codepoints(body: Seq<u8>) -> Seq<u16> {
    match reader::long_field(body) {
        Some((list, _)) => numbers(list),
        None => seq![],
    }
}

/// Whether one of the numbers is reserved.
pub open spec fn any_grease(values: Seq<u16>) -> bool {
    exists|i: int| 0 <= i < values.len() && grease(#[trigger] values[i])
}

/// The names of the groups that can be offered, in order.
pub open spec fn group_texts(values: Seq<u16>) -> Seq<Seq<char>>
    decreases values.len(),
{
    if values.len() == 0 {
        seq![]
    } else {
        match group_text(values.last()) {
            Some(name) => group_texts(values.drop_last()).push(name),
            None => group_texts(values.drop_last()),
        }
    }
}

/// The numbers that are not reserved, in order.
pub open spec fn without_grease(values: Seq<u16>) -> Seq<u16>
    decreases values.len(),
{
    if values.len() == 0 {
        seq![]
    } else if grease(values.last()) {
        without_grease(values.drop_last())
    } else {
        without_grease(values.drop_last()).push(values.last())
    }
}

/// The host that a name in bytes stands for.
pub open spec fn host_named(bytes: Seq<u8>) -> Option<Seq<char>> {
    if vstd::utf8::valid_utf8(bytes) && name::is_domain(vstd::utf8::decode_utf8(bytes)) {
        Some(vstd::utf8::decode_utf8(bytes))
    } else {
        None
    }
}

/// The first host of a list of typed names.
pub open spec fn first_host(s: Seq<u8>) -> Option<Seq<char>>
    decreases s.len(),
{
    if s.len() == 0 {
        None
    } else {
        match reader::long_field(s.skip(1)) {
            None => None,
            Some((bytes, rest)) => if s[0] == NAME_TYPE_HOST {
                host_named(bytes)
            } else {
                first_host(rest)
            },
        }
    }
}

/// The host of an extension's body.
pub open spec fn server_name_in(body: Seq<u8>) -> Option<Seq<char>> {
    if body.len() < 2 {
        None
    } else {
        first_host(body.skip(2))
    }
}

/// What an extension adds to the identity.
pub open spec fn with_extension(id: Identity, kind: u16, body: Seq<u8>) -> Identity {
    let p = id.profile;
    let seen = p.grease || grease(kind);
    if kind == EXTENSION_SERVER_NAME {
        Identity { host: server_name_in(body), profile: Profile { grease: seen, ..p }, ..id }
    } else if kind == EXTENSION_SUPPORTED_GROUPS {
        Identity {
            profile: Profile {
                grease: seen || any_grease(codepoints(body)),
                groups: group_texts(codepoints(body)),
                ..p
            },
            ..id
        }
    } else if kind == EXTENSION_SIGNATURE_ALGORITHMS {
        Identity {
            profile: Profile {
                grease: seen || any_grease(codepoints(body)),
                sigalgs: without_grease(codepoints(body)),
                ..p
            },
            ..id
        }
    } else if kind == EXTENSION_ALPN {
        Identity { alpn: offer_in(body), profile: Profile { grease: seen, ..p }, ..id }
    } else if kind == EXTENSION_COMPRESS_CERTIFICATE {
        match reader::short_field(body) {
            Some((list, _)) => Identity {
                profile: Profile { grease: seen, compression: numbers(list), ..p },
                ..id
            },
            None => Identity { profile: Profile { grease: seen, ..p }, ..id },
        }
    } else {
        Identity { profile: Profile { grease: seen, ..p }, ..id }
    }
}

/// What a list of extensions adds to the identity; nothing can be said of one
/// that breaks off.
pub open spec fn with_extensions(id: Identity, list: Seq<u8>) -> Option<Identity>
    decreases list.len(),
{
    if list.len() == 0 {
        Some(id)
    } else if list.len() < 2 {
        None
    } else {
        match reader::long_field(list.skip(2)) {
            None => None,
            Some((body, rest)) => with_extensions(
                with_extension(id, reader::two(list), body),
                rest,
            ),
        }
    }
}

/// The body of a handshake message that is a client's first and whole.
pub open spec fn hello_body(record: Seq<u8>) -> Option<Seq<u8>> {
    if record.len() < 4 || record[0] != HANDSHAKE_CLIENT_HELLO {
        None
    } else {
        match reader::taken(record.skip(4), record[1] * 65536 + record[2] * 256 + record[3]) {
            Some((body, _)) => Some(body),
            None => None,
        }
    }
}

/// The extensions of a message: behind the version, the random, the session,
/// the ciphers and the compressions.
pub open spec fn extensions_in(body: Seq<u8>) -> Option<Seq<u8>> {
    if body.len() < 34 {
        None
    } else {
        match reader::short_field(body.skip(34)) {
            None => None,
            Some((_, s)) => match reader::long_field(s) {
                None => None,
                Some((_, s)) => match reader::short_field(s) {
                    None => None,
                    Some((_, s)) => match reader::long_field(s) {
                        None => None,
                        Some((list, _)) => Some(list),
                    },
                },
            },
        }
    }
}

/// What a record says of the client.
pub open spec fn identity_in(record: Seq<u8>) -> Identity {
    match hello_body(record) {
        None => no_identity(),
        Some(body) => match extensions_in(body) {
            None => no_identity(),
            Some(list) => match with_extensions(no_identity(), list) {
                Some(id) => id,
                None => no_identity(),
            },
        },
    }
}

fn read_numbers(body: &[u8]) -> (r: Vec<u16>)
    ensures
        r@ == numbers(body@),
{
    let mut r: Vec<u16> = Vec::new();
    let mut reader = Reader::new(body);
    assert(r@ + numbers(reader@) =~= numbers(body@));
    loop
        invariant
            r@ + numbers(reader@) == numbers(body@),
        ensures
            r@ == numbers(body@),
        decreases reader@.len(),
    {
        let ghost before = reader@;
        let ghost held = r@;
        match reader.u16() {
            Some(v) => {
                r.push(v);
                assert(r@ + numbers(reader@) =~= held + numbers(before));
            },
            None => {
                assert(r@ + numbers(reader@) =~= r@);
                break;
            },
        }
    }
    r
}

fn read_codepoints(body: &[u8]) -> (r: Vec<u16>)
    ensures
        r@ == codepoints(body@),
{
    let mut reader = Reader::new(body);
    match reader.vector_u16() {
        Some(list) => read_numbers(list),
        None => {
            let r: Vec<u16> = Vec::new();
            assert(r@ =~= seq![]);
            r
        },
    }
}

fn has_grease(values: &Vec<u16>) -> (r: bool)
    ensures
        r == any_grease(values@),
{
    let n: usize = values.len();
    let mut i: usize = 0;
    while i < n
        invariant
            i <= n,
            n == values@.len(),
            forall|j: int| 0 <= j < i ==> !grease(#[trigger] values@[j]),
        decreases n - i,
    {
        if is_grease(values[i]) {
            assert(grease(values@[i as int]));
            return true;
        }
        i += 1;
    }
    false
}

fn keep_groups(values: &Vec<u16>) -> (r: Vec<&'static str>)
    ensures
        texts(r@) == group_texts(values@),
{
    let mut r: Vec<&'static str> = Vec::new();
    let n: usize = values.len();
    let mut i: usize = 0;
    assert(values@.take(0) =~= seq![]);
    assert(texts(r@) =~= seq![]);
    while i < n
        invariant
            i <= n,
            n == values@.len(),
            texts(r@) == group_texts(values@.take(i as int)),
        decreases n - i,
    {
        let ghost before = r@;
        assert(values@.take(i + 1).drop_last() =~= values@.take(i as int));
        match group_name(values[i]) {
            Some(name) => {
                r.push(name);
                assert(texts(r@) =~= texts(before).push(name@));
            },
            None => {},
        }
        i += 1;
    }
    assert(values@.take(n as int) =~= values@);
    r
}

fn drop_grease(values: &Vec<u16>) -> (r: Vec<u16>)
    ensures
        r@ == without_grease(values@),
{
    let mut r: Vec<u16> = Vec::new();
    let n: usize = values.len();
    let mut i: usize = 0;
    assert(values@.take(0) =~= seq![]);
    assert(r@ =~= seq![]);
    while i < n
        invariant
            i <= n,
            n == values@.len(),
            r@ == without_grease(values@.take(i as int)),
        decreases n - i,
    {
        assert(values@.take(i + 1).drop_last() =~= values@.take(i as int));
        if !is_grease(values[i]) {
            r.push(values[i]);
        }
        i += 1;
    }
    assert(values@.take(n as int) =~= values@);
    r
}

/// The host that a name in bytes stands for.
pub fn read_host(bytes: &[u8]) -> (r: Option<DomainName>)
    ensures
        match r {
            Some(host) => host_named(bytes@) == Some(host@),
            None => host_named(bytes@) is None,
        },
{
    match utf8_text(bytes) {
        Some(text) => match DomainName::new(text) {
            Ok(host) => Some(host),
            Err(_) => None,
        },
        None => None,
    }
}

fn server_name(body: &[u8]) -> (r: Option<DomainName>)
    ensures
        match r {
            Some(host) => server_name_in(body@) == Some(host@),
            None => server_name_in(body@) is None,
        },
{
    let mut names = Reader::new(body);
    match names.take(2) {
        Some(_) => {},
        None => {
            return None;
        },
    }
    loop
        invariant
            body@.len() >= 2,
            first_host(names@) == first_host(body@.skip(2)),
        decreases names@.len(),
    {
        let kind: u8 = match names.u8() {
            Some(kind) => kind,
            None => {
                return None;
            },
        };
        match names.vector_u16() {
            None => {
                return None;
            },
            Some(bytes) => {
                if kind == NAME_TYPE_HOST {
                    return read_host(bytes);
                }
            },
        }
    }
}

fn take_extension(hello: &mut Hello, kind: u16, body: &[u8])
    ensures
        final(hello)@ == with_extension(old(hello)@, kind, body@),
{
    let seen: bool = hello.profile.grease || is_grease(kind);
    hello.profile.grease = seen;
    if kind == EXTENSION_SERVER_NAME {
        hello.host = server_name(body);
    } else if kind == EXTENSION_SUPPORTED_GROUPS {
        let values: Vec<u16> = read_codepoints(body);
        hello.profile.grease = seen || has_grease(&values);
        hello.profile.groups = keep_groups(&values);
    } else if kind == EXTENSION_SIGNATURE_ALGORITHMS {
        let values: Vec<u16> = read_codepoints(body);
        hello.profile.grease = seen || has_grease(&values);
        hello.profile.sigalgs = drop_grease(&values);
    } else if kind == EXTENSION_ALPN {
        hello.alpn = Offer::read(body);
    } else if kind == EXTENSION_COMPRESS_CERTIFICATE {
        let mut inner = Reader::new(body);
        match inner.vector_u8() {
            Some(list) => {
                hello.profile.compression = read_numbers(list);
            },
            None => {},
        }
    }
}

fn find_extensions<'a>(body: &'a [u8]) -> (r: Option<&'a [u8]>)
    ensures
        match r {
            Some(list) => extensions_in(body@) == Some(list@),
            None => extensions_in(body@) is None,
        },
{
    let mut cursor = Reader::new(body);
    if cursor.take(2).is_none() {
        return None;
    }
    if cursor.take(32).is_none() {
        return None;
    }
    assert(body@.skip(2).skip(32) =~= body@.skip(34));
    if cursor.vector_u8().is_none() {
        return None;
    }
    if cursor.vector_u16().is_none() {
        return None;
    }
    if cursor.vector_u8().is_none() {
        return None;
    }
    cursor.vector_u16()
}

/// Reads a client's first message; one that cannot be read says nothing.
pub fn read_hello(record: &[u8]) -> (r: Hello)
    ensures
        r@ == identity_in(record@),
{
    let mut hello = Hello::default();
    let mut reader = Reader::new(record);
    match reader.u8() {
        Some(kind) => {
            if kind != HANDSHAKE_CLIENT_HELLO {
                return hello;
            }
        },
        None => {
            return hello;
        },
    }
    let length: u32 = match reader.u24() {
        Some(length) => length,
        None => {
            return hello;
        },
    };
    assert(record@.skip(1).skip(3) =~= record@.skip(4));
    let body: &[u8] = match reader.take(length as usize) {
        Some(body) => body,
        None => {
            return hello;
        },
    };
    let list: &[u8] = match find_extensions(body) {
        Some(list) => list,
        None => {
            return hello;
        },
    };
    let mut rest = Reader::new(list);
    while !rest.is_empty()
        invariant
            with_extensions(hello@, rest@) == with_extensions(no_identity(), list@),
            hello_body(record@) is Some,
            extensions_in(hello_body(record@)->0) == Some(list@),
        decreases rest@.len(),
    {
        let kind: u16 = match rest.u16() {
            Some(kind) => kind,
            None => {
                return Hello::default();
            },
        };
        let body: &[u8] = match rest.vector_u16() {
            Some(body) => body,
            None => {
                return Hello::default();
            },
        };
        take_extension(&mut hello, kind, body);
    }
    hello
}

/// What is kept of a list holds no reserved value, and everything kept was in
/// the list.
pub proof fn grease_is_stripped(values: Seq<u16>)
    ensures
        !any_grease(without_grease(values)),
        forall|i: int|
            0 <= i < values.len() && !grease(values[i]) ==> without_grease(values).contains(
                #[trigger] values[i],
            ),
        forall|i: int|
            0 <= i < without_grease(values).len() ==> values.contains(
                #[trigger] without_grease(values)[i],
            ),
    decreases values.len(),
{
    if values.len() > 0 {
        let rest = values.drop_last();
        let kept = without_grease(rest);
        grease_is_stripped(rest);
        let all = without_grease(values);
        assert forall|i: int| 0 <= i < values.len() && !grease(values[i]) implies all.contains(
            #[trigger] values[i],
        ) by {
            if i < rest.len() {
                assert(rest[i] == values[i]);
                assert(kept.contains(values[i]));
                let k = choose|k: int| 0 <= k < kept.len() && kept[k] == values[i];
                assert(all[k] == values[i]);
            } else {
                assert(all[kept.len() as int] == values[i]);
            }
        }
        assert forall|i: int| 0 <= i < all.len() implies values.contains(#[trigger] all[i]) by {
            if i < kept.len() {
                assert(all[i] == kept[i]);
                assert(rest.contains(kept[i]));
                let k = choose|k: int| 0 <= k < rest.len() && rest[k] == kept[i];
                assert(values[k] == all[i]);
            } else {
                assert(all[i] == values[values.len() - 1]);
            }
        }
        assert forall|i: int| 0 <= i < all.len() implies !grease(#[trigger] all[i]) by {
            if i < kept.len() {
                assert(all[i] == kept[i]);
            }
        }
    }
}

/// Evidence of a handshake that was refused.
#[derive(Clone, Copy, Debug, PartialEq, Eq, Structural)]
pub enum Refusal {
    /// The peer sent a fatal alert.
    Alert(u8),
    /// The server's certificate was not trusted.
    Untrusted,
    /// No protocol in common.
    NoProtocol,
}

/// The library's reason for a certificate that did not verify.
pub const REASON_CERTIFICATE_VERIFY_FAILED: i32 = 125;

/// The library's reason for no protocol in common.
pub const REASON_NO_APPLICATION_PROTOCOL: i32 = 307;

/// What the library adds to the description of an alert that came in.
pub const REASON_ALERT_OFFSET: i32 = 1000;

/// What one reason is evidence of.
pub open spec fn refusal_of(reason: i32) -> Option<Refusal> {
    if reason == REASON_CERTIFICATE_VERIFY_FAILED {
        Some(Refusal::Untrusted)
    } else if reason == REASON_NO_APPLICATION_PROTOCOL {
        Some(Refusal::NoProtocol)
    } else if REASON_ALERT_OFFSET <= reason < REASON_ALERT_OFFSET + 256 {
        Some(Refusal::Alert((reason - REASON_ALERT_OFFSET) as u8))
    } else {
        None
    }
}

/// What the first telling reason is evidence of.
pub open spec fn first_refusal(reasons: Seq<i32>) -> Option<Refusal>
    decreases reasons.len(),
{
    if reasons.len() == 0 {
        None
    } else {
        match refusal_of(reasons[0]) {
            Some(r) => Some(r),
            None => first_refusal(reasons.skip(1)),
        }
    }
}

/// The evidence in the reasons of a failed handshake, oldest first.
pub fn refusal(reasons: &[i32]) -> (r: Option<Refusal>)
    ensures
        r == first_refusal(reasons@),
{
    let n: usize = reasons.len();
    let mut i: usize = 0;
    assert(reasons@.skip(0) =~= reasons@);
    while i < n
        invariant
            i <= n,
            n == reasons@.len(),
            first_refusal(reasons@.skip(i as int)) == first_refusal(reasons@),
        decreases n - i,
    {
        let reason: i32 = reasons[i];
        if reason == REASON_CERTIFICATE_VERIFY_FAILED {
            return Some(Refusal::Untrusted);
        }
        if reason == REASON_NO_APPLICATION_PROTOCOL {
            return Some(Refusal::NoProtocol);
        }
        if REASON_ALERT_OFFSET <= reason && reason < REASON_ALERT_OFFSET + 256 {
            return Some(Refusal::Alert((reason - REASON_ALERT_OFFSET) as u8));
        }
        assert(reasons@.skip(i as int).skip(1) =~= reasons@.skip(i + 1));
        i += 1;
    }
    None
}

/// A failed handshake and its evidence.
#[derive(Clone, Debug, PartialEq, Eq)]
pub struct HandshakeFailure {
    pub refusal: Option<Refusal>,
    pub detail: String,
}

impl HandshakeFailure {
    pub fn new(refusal: Option<Refusal>, detail: String) -> (r: Self)
        ensures
            r.refusal == refusal,
            r.detail@ == detail@,
    {
        HandshakeFailure { refusal, detail }
    }

    pub fn message(&self) -> (r: &str)
        ensures
            r@ == self.detail@,
    {
        self.detail.as_str()
    }
}

/// The connection window that HTTP/2 starts with.
pub const SPEC_WINDOW_SIZE: u32 = 65_535;

/// The settings and the connection window that a client starts HTTP/2 with. A
/// setting that is `None` is not sent.
#[derive(Clone, Copy, Debug, PartialEq, Eq, Structural)]
pub struct H2Profile {
    pub header_table_size: Option<u32>,
    pub max_concurrent_streams: Option<u32>,
    pub initial_window_size: u32,
    pub max_frame_size: Option<u32>,
    pub max_header_list_size: u32,
    pub connection_window_size: u32,
}

/// A setting in fingerprint notation.
pub open spec fn setting_text(id: u16, value: u32) -> Seq<char> {
    text::decimal(id as nat) + ":"@ + text::decimal(value as nat)
}

/// The settings that are sent, in fingerprint notation.
pub open spec fn settings_text(settings: Seq<(u16, Option<u32>)>) -> Seq<char>
    decreases settings.len(),
{
    if settings.len() == 0 {
        seq![]
    } else {
        let before = settings_text(settings.drop_last());
        match settings.last().1 {
            None => before,
            Some(value) => if before.len() == 0 {
                setting_text(settings.last().0, value)
            } else {
                before + ";"@ + setting_text(settings.last().0, value)
            },
        }
    }
}

/// The settings of a profile, by their identifiers; push is never enabled.
pub open spec fn settings_of(p: H2Profile) -> Seq<(u16, Option<u32>)> {
    seq![
        (1u16, p.header_table_size),
        (2u16, Some(0u32)),
        (3u16, p.max_concurrent_streams),
        (4u16, Some(p.initial_window_size)),
        (5u16, p.max_frame_size),
        (6u16, Some(p.max_header_list_size)),
    ]
}

/// What the connection window is raised by.
pub open spec fn increment_of(p: H2Profile) -> u32 {
    if p.connection_window_size >= SPEC_WINDOW_SIZE {
        (p.connection_window_size - SPEC_WINDOW_SIZE) as u32
    } else {
        0
    }
}

/// The fingerprint of a profile: settings, window increment, no priority, and
/// the order of the pseudo-headers.
pub open spec fn fingerprint(p: H2Profile) -> Seq<char> {
    settings_text(settings_of(p)) + "|"@ + text::decimal(increment_of(p) as nat) + "|0|m,a,s,p"@
}

fn push_setting(into: &mut String, id: u16, value: Option<u32>, Ghost(before): Ghost<
    Seq<(u16, Option<u32>)>,
>)
    requires
        old(into)@ == settings_text(before),
    ensures
        final(into)@ == settings_text(before.push((id, value))),
{
    assert(before.push((id, value)).drop_last() =~= before);
    match value {
        None => {},
        Some(value) => {
            if !into.as_str().is_empty() {
                push_text(into, ";");
            }
            push_decimal(into, id as u64);
            push_text(into, ":");
            push_decimal(into, value as u64);
            assert(into@ =~= settings_text(before.push((id, Some(value)))));
        },
    }
}

impl H2Profile {
    /// The profile that an originating leg speaks.
    pub fn chrome() -> (r: Self)
        ensures
            r == (H2Profile {
                header_table_size: Some(65536),
                max_concurrent_streams: None,
                initial_window_size: 6291456,
                max_frame_size: None,
                max_header_list_size: 262144,
                connection_window_size: 15728640,
            }),
    {
        H2Profile {
            header_table_size: Some(65536),
            max_concurrent_streams: None,
            initial_window_size: 6291456,
            max_frame_size: None,
            max_header_list_size: 262144,
            connection_window_size: 15728640,
        }
    }

    /// What the connection window is raised by.
    pub fn window_increment(&self) -> (r: u32)
        ensures
            r == increment_of(*self),
    {
        self.connection_window_size.saturating_sub(SPEC_WINDOW_SIZE)
    }

    /// The fingerprint of the profile.
    pub fn akamai(&self) -> (r: String)
        ensures
            r@ == fingerprint(*self),
    {
        let mut r = String::new();
        let ghost s = settings_of(*self);
        assert(r@ =~= settings_text(s.take(0)));
        push_setting(&mut r, 1, self.header_table_size, Ghost(s.take(0)));
        assert(s.take(0).push(s[0]) =~= s.take(1));
        push_setting(&mut r, 2, Some(0), Ghost(s.take(1)));
        assert(s.take(1).push(s[1]) =~= s.take(2));
        push_setting(&mut r, 3, self.max_concurrent_streams, Ghost(s.take(2)));
        assert(s.take(2).push(s[2]) =~= s.take(3));
        push_setting(&mut r, 4, Some(self.initial_window_size), Ghost(s.take(3)));
        assert(s.take(3).push(s[3]) =~= s.take(4));
        push_setting(&mut r, 5, self.max_frame_size, Ghost(s.take(4)));
        assert(s.take(4).push(s[4]) =~= s.take(5));
        push_setting(&mut r, 6, Some(self.max_header_list_size), Ghost(s.take(5)));
        assert(s.take(5).push(s[5]) =~= s);
        push_text(&mut r, "|");
        push_decimal(&mut r, self.window_increment() as u64);
        push_text(&mut r, "|0|m,a,s,p");
        r
    }
}

/// Numbers of two bytes each, most significant first.
pub open spec fn written_numbers(values: Seq<u16>) -> Seq<u8>
    decreases values.len(),
{
    if values.len() == 0 {
        seq![]
    } else {
        seq![(values[0] / 256) as u8, (values[0] % 256) as u8] + written_numbers(values.skip(1))
    }
}

/// A list of numbers is read as it was written, all of them and in order.
pub proof fn numbers_are_read_as_written(values: Seq<u16>)
    ensures
        numbers(written_numbers(values)) == values,
        written_numbers(values).len() == 2 * values.len(),
    decreases values.len(),
{
    let s = written_numbers(values);
    if values.len() > 0 {
        let rest = written_numbers(values.skip(1));
        numbers_are_read_as_written(values.skip(1));
        assert(s.skip(2) =~= rest);
        assert(reader::two(s) == values[0]);
        assert(numbers(s) =~= values);
    } else {
        assert(values =~= seq![]);
    }
}

/// The sixteen reserved values, and no others: 0x0a0a, 0x1a1a and so on up to
/// 0xfafa.
pub proof fn sixteen_values_are_reserved(value: u16, r: bool)
    requires
        call_ensures(is_grease, (value,), r),
    ensures
        r <==> value >= 0x0a0a && (value - 0x0a0a) % 0x1010 == 0,
{
}

/// What is kept of two lists one after the other is what is kept of each: no
/// value moves, is added or is dropped for what stands elsewhere.
pub proof fn values_are_kept_one_by_one(a: Seq<u16>, b: Seq<u16>)
    ensures
        without_grease(a + b) == without_grease(a) + without_grease(b),
        group_texts(a + b) == group_texts(a) + group_texts(b),
        any_grease(a + b) <==> any_grease(a) || any_grease(b),
    decreases b.len(),
{
    if b.len() == 0 {
        assert(a + b =~= a);
        assert(without_grease(a) + without_grease(b) =~= without_grease(a));
        assert(group_texts(a) + group_texts(b) =~= group_texts(a));
    } else {
        values_are_kept_one_by_one(a, b.drop_last());
        assert((a + b).drop_last() =~= a + b.drop_last());
        assert(without_grease(a + b) =~= without_grease(a) + without_grease(b));
        assert(group_texts(a + b) =~= group_texts(a) + group_texts(b));
    }
    assert(any_grease(a + b) <==> any_grease(a) || any_grease(b)) by {
        if any_grease(a) {
            let i = choose|i: int| 0 <= i < a.len() && grease(#[trigger] a[i]);
            assert((a + b)[i] == a[i]);
        }
        if any_grease(b) {
            let i = choose|i: int| 0 <= i < b.len() && grease(#[trigger] b[i]);
            assert((a + b)[a.len() + i] == b[i]);
        }
        if any_grease(a + b) {
            let i = choose|i: int| 0 <= i < (a + b).len() && grease(#[trigger] (a + b)[i]);
            if i < a.len() {
                assert(a[i] == (a + b)[i]);
            } else {
                assert(b[i - a.len()] == (a + b)[i]);
            }
        }
    }
}

/// One value is kept exactly if it is not reserved, and one group is offered
/// exactly if it is one of the seven that have a name, each under its own.
pub proof fn a_value_is_kept_for_what_it_is(value: u16)
    ensures
        without_grease(seq![value]) == (if value / 256 == value % 256 && value % 16 == 10 {
            Seq::<u16>::empty()
        } else {
            seq![value]
        }),
        value == 23 ==> group_texts(seq![value]) == seq!["P-256"@],
        value == 24 ==> group_texts(seq![value]) == seq!["P-384"@],
        value == 25 ==> group_texts(seq![value]) == seq!["P-521"@],
        value == 29 ==> group_texts(seq![value]) == seq!["X25519"@],
        value == 0x0202 ==> group_texts(seq![value]) == seq!["MLKEM1024"@],
        value == 0x11ec ==> group_texts(seq![value]) == seq!["X25519MLKEM768"@],
        value == 0x6399 ==> group_texts(seq![value]) == seq!["X25519Kyber768Draft00"@],
        value != 23 && value != 24 && value != 25 && value != 29 && value != 0x0202 && value != 0x11ec && value
            != 0x6399 ==> group_texts(seq![value]).len() == 0,
        group_texts(seq![]).len() == 0,
        without_grease(seq![]).len() == 0,
{
    let one = seq![value];
    assert(one.drop_last() =~= seq![]);
    assert(without_grease(one.drop_last()) =~= seq![]);
    assert(group_texts(one.drop_last()) =~= seq![]);
    assert(without_grease(one) =~= (if value / 256 == value % 256 && value % 16 == 10 {
        Seq::<u16>::empty()
    } else {
        seq![value]
    }));
    if group_text(value) is Some {
        assert(group_texts(one) =~= seq![group_text(value)->0]);
    }
}

/// Extensions as a message carries them: each a kind of two bytes and a body
/// behind its length.
pub open spec fn written_extensions(exts: Seq<(u16, Seq<u8>)>) -> Seq<u8>
    decreases exts.len(),
{
    if exts.len() == 0 {
        seq![]
    } else {
        seq![(exts[0].0 / 256) as u8, (exts[0].0 % 256) as u8] + reader::behind_two(exts[0].1)
            + written_extensions(exts.skip(1))
    }
}

/// The body of the last extension of a kind.
pub open spec fn last_of(exts: Seq<(u16, Seq<u8>)>, kind: u16) -> Option<Seq<u8>>
    decreases exts.len(),
{
    if exts.len() == 0 {
        None
    } else if exts.last().0 == kind {
        Some(exts.last().1)
    } else {
        last_of(exts.drop_last(), kind)
    }
}

proof fn lemma_extension_is_read(id: Identity, kind: u16, body: Seq<u8>, rest: Seq<u8>)
    requires
        body.len() <= 65535,
    ensures
        with_extensions(
            id,
            seq![(kind / 256) as u8, (kind % 256) as u8] + reader::behind_two(body) + rest,
        ) == with_extensions(with_extension(id, kind, body), rest),
{
    let list = seq![(kind / 256) as u8, (kind % 256) as u8] + reader::behind_two(body) + rest;
    reader::a_field_is_read_as_written(body, rest);
    assert(list.skip(2) =~= reader::behind_two(body) + rest);
    assert(reader::two(list) == kind);
}

proof fn lemma_extensions_fold(id: Identity, exts: Seq<(u16, Seq<u8>)>, last: (u16, Seq<u8>))
    requires
        forall|i: int| 0 <= i < exts.len() ==> (#[trigger] exts[i]).1.len() <= 65535,
        last.1.len() <= 65535,
    ensures
        with_extensions(id, written_extensions(exts)) is Some,
        with_extensions(id, written_extensions(exts.push(last))) == Some(
            with_extension(with_extensions(id, written_extensions(exts))->0, last.0, last.1),
        ),
    decreases exts.len(),
{
    let all = exts.push(last);
    if exts.len() == 0 {
        assert(all.skip(1) =~= seq![]);
        assert(written_extensions(all.skip(1)) =~= seq![]);
        lemma_extension_is_read(id, last.0, last.1, seq![]);
    } else {
        let rest = exts.skip(1);
        let next = with_extension(id, exts[0].0, exts[0].1);
        assert(all.skip(1) =~= rest.push(last));
        assert forall|i: int| 0 <= i < rest.len() implies (#[trigger] rest[i]).1.len() <= 65535 by {
            assert(rest[i] == exts[i + 1]);
        }
        lemma_extensions_fold(next, rest, last);
        lemma_extension_is_read(id, exts[0].0, exts[0].1, written_extensions(rest));
        lemma_extension_is_read(id, exts[0].0, exts[0].1, written_extensions(rest.push(last)));
        assert(all[0] == exts[0]);
    }
}

/// Whether a reserved value stands among the kinds, the groups or the signature
/// algorithms.
pub open spec fn shows_grease(exts: Seq<(u16, Seq<u8>)>) -> bool {
    exists|i: int|
        0 <= i < exts.len() && (grease((#[trigger] exts[i]).0) || ((exts[i].0 == 10 || exts[i].0 == 13) && any_grease(
            codepoints(exts[i].1),
        )))
}

proof fn lemma_extensions_say(exts: Seq<(u16, Seq<u8>)>)
    requires
        forall|i: int| 0 <= i < exts.len() ==> (#[trigger] exts[i]).1.len() <= 65535,
    ensures
        with_extensions(no_identity(), written_extensions(exts)) is Some,
        ({
            let id = with_extensions(no_identity(), written_extensions(exts))->0;
            &&& id.host == (match last_of(exts, 0) {
                Some(body) => server_name_in(body),
                None => None,
            })
            &&& id.alpn == (match last_of(exts, 16) {
                Some(body) => offer_in(body),
                None => seq![],
            })
            &&& id.profile.groups == (match last_of(exts, 10) {
                Some(body) => group_texts(codepoints(body)),
                None => seq![],
            })
            &&& id.profile.sigalgs == (match last_of(exts, 13) {
                Some(body) => without_grease(codepoints(body)),
                None => seq![],
            })
            &&& last_of(exts, 27) is None ==> id.profile.compression == Seq::<u16>::empty()
            &&& last_of(exts, 27) is Some && reader::short_field(last_of(exts, 27)->0) is Some
                ==> id.profile.compression == numbers(
                (reader::short_field(last_of(exts, 27)->0)->0).0,
            )
            &&& id.profile.grease == shows_grease(exts)
        }),
    decreases exts.len(),
{
    if exts.len() == 0 {
        assert(written_extensions(exts) =~= seq![]);
        assert(!shows_grease(exts));
    } else {
        let front = exts.drop_last();
        let last = exts.last();
        assert(front.push(last) =~= exts);
        assert forall|i: int| 0 <= i < front.len() implies (#[trigger] front[i]).1.len() <= 65535 by {
            assert(front[i] == exts[i]);
        }
        assert(exts[exts.len() - 1].1.len() <= 65535);
        lemma_extensions_say(front);
        lemma_extensions_fold(no_identity(), front, last);
        let is_last = grease(last.0) || ((last.0 == 10 || last.0 == 13) && any_grease(codepoints(last.1)));
        assert(shows_grease(exts) <==> shows_grease(front) || is_last) by {
            if shows_grease(front) {
                let i = choose|i: int|
                    0 <= i < front.len() && (grease((#[trigger] front[i]).0) || ((front[i].0 == 10 || front[i].0 == 13)
                        && any_grease(codepoints(front[i].1))));
                assert(exts[i] == front[i]);
            }
            if is_last {
                assert(exts[exts.len() - 1] == last);
            }
            if shows_grease(exts) {
                let i = choose|i: int|
                    0 <= i < exts.len() && (grease((#[trigger] exts[i]).0) || ((exts[i].0 == 10 || exts[i].0 == 13)
                        && any_grease(codepoints(exts[i].1))));
                if i < front.len() {
                    assert(front[i] == exts[i]);
                }
            }
        }
    }
}

/// A client's first message as RFC 8446 writes it: the version, the random, the
/// session, the ciphers, the compressions and the extensions, each list behind
/// its length.
pub open spec fn written_hello(
    version: Seq<u8>,
    random: Seq<u8>,
    session: Seq<u8>,
    ciphers: Seq<u8>,
    compressions: Seq<u8>,
    extensions: Seq<u8>,
) -> Seq<u8> {
    version + random + reader::behind_one(session) + reader::behind_two(ciphers) + reader::behind_one(compressions)
        + reader::behind_two(extensions)
}

/// Whatever the session, the ciphers and the compressions are, the extensions of
/// a message are found as they were written.
pub proof fn extensions_are_found_behind_every_session(
    version: Seq<u8>,
    random: Seq<u8>,
    session: Seq<u8>,
    ciphers: Seq<u8>,
    compressions: Seq<u8>,
    extensions: Seq<u8>,
)
    requires
        version.len() == 2,
        random.len() == 32,
        session.len() <= 255,
        ciphers.len() <= 65535,
        compressions.len() <= 255,
        extensions.len() <= 65535,
    ensures
        extensions_in(written_hello(version, random, session, ciphers, compressions, extensions)) == Some(
            extensions,
        ),
{
    let body = written_hello(version, random, session, ciphers, compressions, extensions);
    let d = reader::behind_two(extensions);
    let c = reader::behind_one(compressions) + d;
    let b = reader::behind_two(ciphers) + c;
    assert(body.skip(34) =~= reader::behind_one(session) + b);
    reader::a_field_is_read_as_written(session, b);
    reader::a_field_is_read_as_written(ciphers, c);
    reader::a_field_is_read_as_written(compressions, d);
    reader::a_field_is_read_as_written(extensions, seq![]);
    assert(d + seq![] =~= d);
}

/// A body of a server name extension that names one host.
pub open spec fn written_server_name(host: Seq<u8>) -> Seq<u8> {
    reader::behind_two(seq![0u8] + reader::behind_two(host))
}

/// Names of protocols, each behind its length.
pub open spec fn written_names(names: Seq<Seq<u8>>) -> Seq<u8>
    decreases names.len(),
{
    if names.len() == 0 {
        seq![]
    } else {
        reader::behind_one(names[0]) + written_names(names.skip(1))
    }
}

/// Names of protocols are read as they were written, all of them and in order.
pub proof fn names_are_read_as_written(names: Seq<Seq<u8>>)
    requires
        forall|i: int| 0 <= i < names.len() ==> (#[trigger] names[i]).len() <= 255,
    ensures
        names_in(written_names(names)) == names,
    decreases names.len(),
{
    if names.len() > 0 {
        let rest = names.skip(1);
        assert forall|i: int| 0 <= i < rest.len() implies (#[trigger] rest[i]).len() <= 255 by {
            assert(rest[i] == names[i + 1]);
        }
        names_are_read_as_written(rest);
        assert(names[0].len() <= 255);
        reader::a_field_is_read_as_written(names[0], written_names(rest));
        assert(names_in(written_names(names)) =~= names);
    } else {
        assert(names =~= seq![]);
    }
}

proof fn lemma_hello_is_found(hello: Seq<u8>, behind: Seq<u8>)
    requires
        hello.len() < 0x100_0000,
    ensures
        hello_body(seq![1u8] + reader::behind_three(hello) + behind) == Some(hello),
{
    let record = seq![1u8] + reader::behind_three(hello) + behind;
    let n = hello.len() as int;
    assert(record[1] == n / 65536 && record[2] == (n / 256) % 256 && record[3] == n % 256);
    assert(n == (n / 65536) * 65536 + ((n / 256) % 256) * 256 + n % 256);
    assert(record.skip(4) =~= hello + behind);
    assert((hello + behind).take(n) =~= hello);
}

proof fn lemma_numbers_are_found(values: Seq<u16>)
    ensures
        values.len() < 32768 ==> codepoints(reader::behind_two(written_numbers(values))) == values,
        values.len() < 128 ==> reader::short_field(reader::behind_one(written_numbers(values))) is Some && numbers(
            (reader::short_field(reader::behind_one(written_numbers(values)))->0).0,
        ) == values,
{
    numbers_are_read_as_written(values);
    let nums = written_numbers(values);
    reader::a_field_is_read_as_written(nums, seq![]);
    assert(reader::behind_two(nums) + seq![] =~= reader::behind_two(nums));
    assert(reader::behind_one(nums) + seq![] =~= reader::behind_one(nums));
}

proof fn lemma_server_name_is_found(host: Seq<char>)
    requires
        1 <= host.len() <= 255,
        forall|i: int| 0 <= i < host.len() ==> '!' <= #[trigger] host[i] <= '~',
    ensures
        server_name_in(written_server_name(vstd::utf8::encode_utf8(host))) == Some(host),
{
    let text = vstd::utf8::encode_utf8(host);
    vstd::utf8::encode_utf8_valid_utf8(host);
    vstd::utf8::encode_utf8_decode_utf8(host);
    assert(vstd::utf8::is_ascii_chars(host));
    vstd::utf8::is_ascii_chars_encode_utf8(host);
    let entry = seq![0u8] + reader::behind_two(text);
    let body = written_server_name(text);
    assert(body.skip(2) =~= entry);
    assert(entry.skip(1) =~= reader::behind_two(text) + seq![]);
    reader::a_field_is_read_as_written(text, seq![]);
    assert(first_host(entry) == host_named(text));
}

proof fn lemma_offer_is_found(protocols: Seq<Seq<u8>>)
    requires
        written_names(protocols).len() <= 65535,
        forall|i: int| 0 <= i < protocols.len() ==> (#[trigger] protocols[i]).len() <= 255,
    ensures
        ({
            let alpn = offer_in(reader::behind_two(written_names(protocols)));
            &&& alpn.contains(Wire::Http2) <==> protocols.contains(seq![0x68u8, 0x32])
            &&& alpn.contains(Wire::Http1) <==> protocols.contains(
                seq![0x68u8, 0x74, 0x74, 0x70, 0x2f, 0x31, 0x2e, 0x31],
            )
            &&& forall|i: int, j: int|
                #![trigger alpn[i], alpn[j]]
                0 <= i < j < alpn.len() ==> first_named(protocols, alpn[i]) < first_named(protocols, alpn[j])
        }),
{
    let names = written_names(protocols);
    let alpn = offer_in(reader::behind_two(names));
    reader::a_field_is_read_as_written(names, seq![]);
    assert(reader::behind_two(names) + seq![] =~= reader::behind_two(names));
    names_are_read_as_written(protocols);
    assert(alpn == wires_in(names, seq![]));
    an_offer_holds_what_is_listed(names, Wire::Http2);
    an_offer_holds_what_is_listed(names, Wire::Http1);
    mitm::two_protocols_are_terminated();
    let h2 = seq![0x68u8, 0x32];
    let h1 = seq![0x68u8, 0x74, 0x74, 0x70, 0x2f, 0x31, 0x2e, 0x31];
    assert(h2.len() != h1.len());
    if protocols.contains(h2) {
        let i = choose|i: int| 0 <= i < protocols.len() && protocols[i] == h2;
        assert(mitm::wire_of(names_in(names)[i]) == Some(Wire::Http2));
    }
    if protocols.contains(h1) {
        let i = choose|i: int| 0 <= i < protocols.len() && protocols[i] == h1;
        assert(mitm::wire_of(names_in(names)[i]) == Some(Wire::Http1));
    }
}

/// A written first message is read in full, whatever its version, random, session,
/// ciphers and compressions are, and whatever follows it. Of each kind the last
/// extension counts. The host is the one that the server name extension names;
/// without one there is none. The groups are those named ones that were listed,
/// the signature algorithms all but the reserved values, the compressions all, and
/// the offer is what the protocol names stand for.
pub proof fn a_written_hello_is_read_in_full(
    version: Seq<u8>,
    random: Seq<u8>,
    session: Seq<u8>,
    ciphers: Seq<u8>,
    compressions: Seq<u8>,
    exts: Seq<(u16, Seq<u8>)>,
    behind: Seq<u8>,
    host: Seq<char>,
    values: Seq<u16>,
    protocols: Seq<Seq<u8>>,
)
    requires
        version.len() == 2,
        random.len() == 32,
        session.len() <= 255,
        ciphers.len() <= 65535,
        compressions.len() <= 255,
        written_extensions(exts).len() <= 65535,
        forall|i: int| 0 <= i < exts.len() ==> (#[trigger] exts[i]).1.len() <= 65535,
    ensures
        ({
            let hello = written_hello(version, random, session, ciphers, compressions, written_extensions(exts));
            let id = identity_in(seq![1u8] + reader::behind_three(hello) + behind);
            &&& last_of(exts, 0) is None ==> id.host is None
            &&& last_of(exts, 0) == Some(written_server_name(vstd::utf8::encode_utf8(host))) && 1 <= host.len() <= 255
                && (forall|i: int| 0 <= i < host.len() ==> '!' <= #[trigger] host[i] <= '~') ==> id.host == Some(host)
            &&& last_of(exts, 10) is None ==> id.profile.groups.len() == 0
            &&& last_of(exts, 10) == Some(reader::behind_two(written_numbers(values))) && values.len() < 32768
                ==> id.profile.groups == group_texts(values)
            &&& last_of(exts, 13) is None ==> id.profile.sigalgs.len() == 0
            &&& last_of(exts, 13) == Some(reader::behind_two(written_numbers(values))) && values.len() < 32768
                ==> id.profile.sigalgs == without_grease(values)
            &&& last_of(exts, 27) is None ==> id.profile.compression.len() == 0
            &&& last_of(exts, 27) == Some(reader::behind_one(written_numbers(values))) && values.len() < 128
                ==> id.profile.compression == values
            &&& last_of(exts, 16) is None ==> id.alpn.len() == 0
            &&& last_of(exts, 16) == Some(reader::behind_two(written_names(protocols))) && written_names(
                protocols,
            ).len() <= 65535 && (forall|i: int| 0 <= i < protocols.len() ==> (#[trigger] protocols[i]).len() <= 255)
                ==> {
                &&& id.alpn.contains(Wire::Http2) <==> protocols.contains(seq![0x68u8, 0x32])
                &&& id.alpn.contains(Wire::Http1) <==> protocols.contains(
                    seq![0x68u8, 0x74, 0x74, 0x70, 0x2f, 0x31, 0x2e, 0x31],
                )
                &&& forall|i: int, j: int|
                    #![trigger id.alpn[i], id.alpn[j]]
                    0 <= i < j < id.alpn.len() ==> first_named(protocols, id.alpn[i]) < first_named(
                        protocols,
                        id.alpn[j],
                    )
            }
            &&& id.profile.grease == shows_grease(exts)
        }),
{
    let list = written_extensions(exts);
    let hello = written_hello(version, random, session, ciphers, compressions, list);
    lemma_hello_is_found(hello, behind);
    extensions_are_found_behind_every_session(version, random, session, ciphers, compressions, list);
    lemma_extensions_say(exts);
    let id = identity_in(seq![1u8] + reader::behind_three(hello) + behind);
    assert(Some(id) == with_extensions(no_identity(), list));
    lemma_numbers_are_found(values);
    if 1 <= host.len() <= 255 && (forall|i: int| 0 <= i < host.len() ==> '!' <= #[trigger] host[i] <= '~') {
        lemma_server_name_is_found(host);
    }
    if written_names(protocols).len() <= 65535 && (forall|i: int|
        0 <= i < protocols.len() ==> (#[trigger] protocols[i]).len() <= 255) {
        lemma_offer_is_found(protocols);
    }
}

/// A first message that is cut short, or is another message, says nothing.
pub proof fn a_broken_hello_says_nothing(hello: Seq<u8>, cut: int, record: Seq<u8>)
    requires
        hello.len() < 0x100_0000,
    ensures
        0 <= cut < 4 + hello.len() ==> identity_in((seq![1u8] + reader::behind_three(hello)).take(cut))
            == no_identity(),
        record.len() == 0 || record[0] != 1 ==> identity_in(record) == no_identity(),
        no_identity().host is None,
        no_identity().alpn.len() == 0,
        no_identity().profile.groups.len() == 0,
        no_identity().profile.sigalgs.len() == 0,
        no_identity().profile.compression.len() == 0,
        !no_identity().profile.grease,
{
    let n = hello.len() as int;
    let record = (seq![1u8] + reader::behind_three(hello)).take(cut);
    if 4 <= cut < 4 + n {
        assert(record[1] == n / 65536 && record[2] == (n / 256) % 256 && record[3] == n % 256);
        assert(n == (n / 65536) * 65536 + ((n / 256) % 256) * 256 + n % 256);
    }
}

/// A name of another kind than a host is passed over; the first host counts.
pub proof fn the_first_host_of_the_names_counts(kind: u8, bytes: Seq<u8>, rest: Seq<u8>)
    requires
        bytes.len() <= 65535,
    ensures
        kind != 0 ==> first_host(seq![kind] + reader::behind_two(bytes) + rest) == first_host(rest),
        first_host(seq![0u8] + reader::behind_two(bytes) + rest) == host_named(bytes),
{
    let s = seq![kind] + reader::behind_two(bytes) + rest;
    let t = seq![0u8] + reader::behind_two(bytes) + rest;
    assert(s.skip(1) =~= reader::behind_two(bytes) + rest);
    assert(t.skip(1) =~= reader::behind_two(bytes) + rest);
    reader::a_field_is_read_as_written(bytes, rest);
}

/// What the reasons of a failed handshake are evidence of: an alert that came in
/// counts 1000 more than its own number, 125 is a certificate that did not verify,
/// 307 no protocol in common, and nothing else tells anything. The first that tells
/// something counts.
pub proof fn the_first_telling_reason_counts(reasons: &[i32], n: int, r: Option<Refusal>)
    requires
        call_ensures(refusal, (reasons,), r),
        0 <= n < reasons@.len(),
        forall|i: int|
            0 <= i < n ==> (#[trigger] reasons@[i]) != 125 && reasons@[i] != 307 && !(1000 <= reasons@[i] < 1256),
    ensures
        reasons@[n] == 125 ==> r == Some(Refusal::Untrusted),
        reasons@[n] == 307 ==> r == Some(Refusal::NoProtocol),
        1000 <= reasons@[n] < 1256 ==> (r matches Some(Refusal::Alert(a)) && a == reasons@[n] - 1000),
        n + 1 == reasons@.len() && reasons@[n] != 125 && reasons@[n] != 307 && !(1000 <= reasons@[n] < 1256) ==> r
            is None,
{
    lemma_first_refusal(reasons@, n);
}

proof fn lemma_first_refusal(reasons: Seq<i32>, n: int)
    requires
        0 <= n < reasons.len(),
        forall|i: int| 0 <= i < n ==> refusal_of(#[trigger] reasons[i]) is None,
    ensures
        refusal_of(reasons[n]) is Some ==> first_refusal(reasons) == refusal_of(reasons[n]),
        n + 1 == reasons.len() && refusal_of(reasons[n]) is None ==> first_refusal(reasons) is None,
    decreases reasons.len(),
{
    let rest = reasons.skip(1);
    if n > 0 {
        assert(refusal_of(reasons[0]) is None);
        assert forall|i: int| 0 <= i < n - 1 implies refusal_of(#[trigger] rest[i]) is None by {
            assert(rest[i] == reasons[i + 1]);
        }
        assert(rest[n - 1] == reasons[n]);
        lemma_first_refusal(rest, n - 1);
    } else if reasons.len() == 1 {
        assert(rest =~= seq![]);
        assert(first_refusal(rest) is None);
    }
}

/// The window that HTTP/2 starts with and what it is raised by make up the window
/// of the profile, where that is larger.
pub proof fn the_window_is_raised_to_the_profile(p: &H2Profile, r: u32)
    requires
        call_ensures(H2Profile::window_increment, (p,), r),
    ensures
        p.connection_window_size >= 65535 ==> 65535 + r == p.connection_window_size,
        p.connection_window_size < 65535 ==> r == 0,
{
}

/// How a profile is fingerprinted: the settings that are sent, by identifier and value, in
/// the order of their identifiers with semicolons between, push always off; then what the
/// window is raised by, no priority, and the order of the pseudo-headers.
pub proof fn a_fingerprint_lists_what_is_sent(s: Seq<(u16, Option<u32>)>, id: u16, value: u32, p: &H2Profile, r: String)
    requires
        call_ensures(H2Profile::akamai, (p,), r),
    ensures
        settings_text(s.push((id, None))) == settings_text(s),
        settings_text(s).len() == 0 ==> settings_text(s.push((id, Some(value)))) == text::decimal(id as nat) + seq![':']
            + text::decimal(value as nat),
        settings_text(s).len() > 0 ==> settings_text(s.push((id, Some(value)))) == settings_text(s) + seq![';']
            + text::decimal(id as nat) + seq![':'] + text::decimal(value as nat),
        r@ == settings_text(
            seq![
                (1u16, p.header_table_size),
                (2u16, Some(0u32)),
                (3u16, p.max_concurrent_streams),
                (4u16, Some(p.initial_window_size)),
                (5u16, p.max_frame_size),
                (6u16, Some(p.max_header_list_size)),
            ],
        ) + seq!['|'] + text::decimal(
            if p.connection_window_size >= 65535 {
                (p.connection_window_size - 65535) as nat
            } else {
                0
            },
        ) + "|0|m,a,s,p"@,
{
    reveal_strlit(":");
    reveal_strlit(";");
    reveal_strlit("|");
    assert(":"@ =~= seq![':']);
    assert(";"@ =~= seq![';']);
    assert("|"@ =~= seq!['|']);
    assert(s.push((id, None::<u32>)).drop_last() =~= s);
    assert(s.push((id, Some(value))).drop_last() =~= s);
    if settings_text(s).len() > 0 {
        assert(settings_text(s.push((id, Some(value)))) =~= settings_text(s) + seq![';'] + text::decimal(id as nat)
            + seq![':'] + text::decimal(value as nat));
    }
}

} // verus!
