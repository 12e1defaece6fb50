//! Connectors to origins, shared between connections in the same likeness.

use vstd::prelude::*;

use crate::mirror;
use crate::mirror::ClientProfile;
use crate::text::{chars_of, push_text, same_bytes, same_chars};

verus! {

/// The most connectors that are kept.
pub const MAX_CACHED_CONNECTORS: usize = 16;

/// Names with a colon between them.
pub open spec fn colon_list(names: Seq<Seq<char>>) -> Seq<char>
    decreases names.len(),
{
    if names.len() == 0 {
        seq![]
    } else if names.len() == 1 {
        names[0]
    } else {
        colon_list(names.drop_last()) + ":"@ + names.last()
    }
}

/// What a connector changes in a client's first message. What is absent stays
/// as the TLS library has it.
#[derive(Clone, Debug, PartialEq, Eq)]
pub struct Overrides {
    /// The groups, with a colon between them.
    pub groups: Option<String>,
    pub sigalgs: Option<Vec<u16>>,
    /// Whether certificates may come compressed with Brotli.
    pub brotli: bool,
    pub grease: bool,
}

/// What a connector changes to be like a client.
pub fn overrides(profile: &ClientProfile) -> (r: Overrides)
    ensures
        r.groups is None == (profile@.groups.len() == 0),
        r.groups matches Some(list) ==> list@ == colon_list(profile@.groups),
        r.sigalgs is None == (profile@.sigalgs.len() == 0),
        r.sigalgs matches Some(list) ==> list@ == profile@.sigalgs,
        r.brotli == profile@.compression.contains(mirror::BROTLI_ALGORITHM),
        r.grease == profile@.grease,
{
    let ghost all = profile@.groups;
    let names: &[&'static str] = profile.groups();
    let n: usize = names.len();
    let groups: Option<String> = if n == 0 {
        None
    } else {
        let mut list = String::new();
        let mut i: usize = 0;
        assert(list@ =~= colon_list(all.take(0)));
        while i < n
            invariant
                i <= n,
                n == names@.len(),
                all == mirror::texts(names@),
                list@ == colon_list(all.take(i as int)),
            decreases n - i,
        {
            if i > 0 {
                push_text(&mut list, ":");
            }
            push_text(&mut list, names[i]);
            proof {
                let more = all.take(i + 1);
                assert(more.drop_last() =~= all.take(i as int));
                assert(more.last() == names@[i as int]@);
                assert(list@ =~= colon_list(more));
            }
            i += 1;
        }
        assert(all.take(n as int) =~= all);
        Some(list)
    };
    let m: usize = profile.sigalgs.len();
    let sigalgs: Option<Vec<u16>> = if m == 0 {
        None
    } else {
        let mut list: Vec<u16> = Vec::new();
        list.extend_from_slice(profile.sigalgs.as_slice());
        assert(list@ =~= profile@.sigalgs);
        Some(list)
    };
    Overrides {
        groups,
        sigalgs,
        brotli: profile.compresses_certificates(),
        grease: profile.grease,
    }
}

fn same_codes(a: &Vec<u16>, b: &Vec<u16>) -> (r: bool)
    ensures
        r == (a@ == b@),
{
    if a.len() != b.len() {
        return false;
    }
    let n: usize = a.len();
    let mut i: usize = 0;
    while i < n
        invariant
            i <= n,
            n == a@.len(),
            n == b@.len(),
            forall|j: int| 0 <= j < i ==> a@[j] == b@[j],
        decreases n - i,
    {
        if a[i] != b[i] {
            return false;
        }
        i += 1;
    }
    assert(a@ =~= b@);
    true
}

fn same_names(a: &[&'static str], b: &[&'static str]) -> (r: bool)
    ensures
        r == (mirror::texts(a@) == mirror::texts(b@)),
{
    if a.len() != b.len() {
        proof {
            assert(mirror::texts(a@).len() != mirror::texts(b@).len());
        }
        return false;
    }
    let n: usize = a.len();
    let mut i: usize = 0;
    while i < n
        invariant
            i <= n,
            n == a@.len(),
            n == b@.len(),
            forall|j: int| 0 <= j < i ==> a@[j]@ == b@[j]@,
        decreases n - i,
    {
        let one: Vec<char> = chars_of(a[i]);
        let other: Vec<char> = chars_of(b[i]);
        if !same_chars(one.as_slice(), other.as_slice()) {
            proof {
                assert(mirror::texts(a@)[i as int] != mirror::texts(b@)[i as int]);
            }
            return false;
        }
        i += 1;
    }
    assert(mirror::texts(a@) =~= mirror::texts(b@));
    true
}

/// Whether two clients look the same.
pub fn same_profile(a: &ClientProfile, b: &ClientProfile) -> (r: bool)
    ensures
        r == (a@ == b@),
{
    same_names(a.groups(), b.groups()) && same_codes(&a.sigalgs, &b.sigalgs) && same_codes(
        &a.compression,
        &b.compression,
    ) && a.grease == b.grease
}

/// What a connector is kept by: a profile, and the protocols it offers.
pub struct Likeness {
    pub profile: mirror::Profile,
    pub offer: Seq<u8>,
}

/// A connector that is kept.
pub struct Kept<V> {
    pub profile: ClientProfile,
    pub offer: Vec<u8>,
    pub connector: V,
}

impl<V> Kept<V> {
    pub open spec fn likeness(&self) -> Likeness {
        Likeness { profile: self.profile@, offer: self.offer@ }
    }
}

/// Connectors that were built, forgotten all at once when they are too many.
pub struct Connectors<V> {
    pub kept: Vec<Kept<V>>,
}

/// Whether a connector of this likeness is among those.
pub open spec fn is_kept<V>(kept: Seq<Kept<V>>, likeness: Likeness) -> bool {
    exists|i: int| 0 <= i < kept.len() && (#[trigger] kept[i]).likeness() == likeness
}

/// Those that stay when one more is built.
pub open spec fn spared<V>(kept: Seq<Kept<V>>) -> Seq<Kept<V>> {
    if kept.len() >= MAX_CACHED_CONNECTORS {
        seq![]
    } else {
        kept
    }
}

impl<V> Connectors<V> {
    /// No more than the limit, and no two of one likeness.
    pub open spec fn wf(&self) -> bool {
        &&& self.kept@.len() <= MAX_CACHED_CONNECTORS
        &&& forall|i: int, j: int|
            0 <= i < j < self.kept@.len() ==> (#[trigger] self.kept@[i]).likeness() != (
            #[trigger] self.kept@[j]).likeness()
    }

    pub fn new() -> (r: Self)
        ensures
            r.wf(),
            r.kept@.len() == 0,
    {
        Connectors { kept: Vec::new() }
    }

    fn find(&self, profile: &ClientProfile, offer: &[u8]) -> (r: Option<usize>)
        ensures
            ({
                let likeness = Likeness { profile: profile@, offer: offer@ };
                match r {
                    Some(i) => i < self.kept@.len() && self.kept@[i as int].likeness() == likeness,
                    None => !is_kept(self.kept@, likeness),
                }
            }),
    {
        let ghost likeness = Likeness { profile: profile@, offer: offer@ };
        let n: usize = self.kept.len();
        let mut i: usize = 0;
        while i < n
            invariant
                i <= n,
                n == self.kept@.len(),
                likeness == (Likeness { profile: profile@, offer: offer@ }),
                forall|j: int| 0 <= j < i ==> (#[trigger] self.kept@[j]).likeness() != likeness,
            decreases n - i,
        {
            let one: &Kept<V> = &self.kept[i];
            if same_profile(&one.profile, profile) && same_bytes(one.offer.as_slice(), offer) {
                return Some(i);
            }
            i += 1;
        }
        None
    }

    /// The connector that is kept for this likeness.
    pub fn get(&self, profile: &ClientProfile, offer: &[u8]) -> (r: Option<&V>)
        ensures
            ({
                let likeness = Likeness { profile: profile@, offer: offer@ };
                match r {
                    Some(v) => exists|i: int|
                        0 <= i < self.kept@.len() && (#[trigger] self.kept@[i]).likeness()
                            == likeness && self.kept@[i].connector == *v,
                    None => !is_kept(self.kept@, likeness),
                }
            }),
    {
        match self.find(profile, offer) {
            Some(i) => Some(&self.kept[i].connector),
            None => None,
        }
    }

    /// Keeps a connector that was built after a miss, and gives the one that is
    /// kept: another may have been built meanwhile.
    pub fn built(&mut self, profile: ClientProfile, offer: Vec<u8>, connector: V) -> (r: &V)
        requires
            old(self).wf(),
        ensures
            final(self).wf(),
            ({
                let before = spared(old(self).kept@);
                let likeness = Likeness { profile: profile@, offer: offer@ };
                if is_kept(before, likeness) {
                    final(self).kept@ == before && exists|i: int|
                        0 <= i < before.len() && (#[trigger] before[i]).likeness() == likeness
                            && before[i].connector == *r
                } else {
                    final(self).kept@ == before.push(Kept { profile, offer, connector }) && *r
                        == connector
                }
            }),
    {
        if self.kept.len() >= MAX_CACHED_CONNECTORS {
            self.kept.clear();
            assert(self.kept@ =~= seq![]);
        }
        assert(self.kept@ == spared(old(self).kept@));
        match self.find(&profile, offer.as_slice()) {
            Some(i) => &self.kept[i].connector,
            None => {
                let ghost before = self.kept@;
                let ghost likeness = Likeness { profile: profile@, offer: offer@ };
                assert forall|i: int| 0 <= i < before.len() implies (#[trigger] before[i]).likeness()
                    != likeness by {
                    assert(!is_kept(before, likeness));
                }
                self.kept.push(Kept { profile, offer, connector });
                let last: usize = self.kept.len() - 1;
                &self.kept[last].connector
            },
        }
    }
}

/// What was built last is found again, whatever was kept before.
pub proof fn a_built_connector_is_found<V>(kept: Seq<Kept<V>>, one: Kept<V>)
    ensures
        is_kept(
            if is_kept(spared(kept), one.likeness()) {
                spared(kept)
            } else {
                spared(kept).push(one)
            },
            one.likeness(),
        ),
{
    let after = spared(kept).push(one);
    assert(after[after.len() - 1].likeness() == one.likeness());
}

/// A connector changes what its client offered, in the client's order, and leaves to the
/// TLS library what the client did not say.
pub proof fn a_connector_repeats_its_client(profile: &ClientProfile, r: Overrides)
    requires
        call_ensures(overrides, (profile,), r),
    ensures
        profile@.groups.len() == 0 <==> r.groups is None,
        profile@.groups.len() == 1 ==> r.groups->0@ == profile@.groups[0],
        profile@.groups.len() == 2 ==> r.groups->0@ == profile@.groups[0] + seq![':'] + profile@.groups[1],
        profile@.sigalgs.len() == 0 <==> r.sigalgs is None,
        profile@.sigalgs.len() > 0 ==> r.sigalgs->0@ == profile@.sigalgs,
        r.brotli <==> profile@.compression.contains(2u16),
        r.grease <==> profile@.grease,
{
    reveal_strlit(":");
    assert(":"@ =~= seq![':']);
    let g = profile@.groups;
    if g.len() == 2 {
        assert(g.drop_last() =~= seq![g[0]]);
        assert(colon_list(g.drop_last()) == g[0]);
    }
}

/// One more group is listed behind the others, after a colon.
pub proof fn groups_are_listed_with_colons(names: Seq<Seq<char>>, one: Seq<char>)
    ensures
        colon_list(seq![one]) == one,
        names.len() > 0 ==> colon_list(names.push(one)) == colon_list(names) + seq![':'] + one,
{
    reveal_strlit(":");
    assert(":"@ =~= seq![':']);
    assert(names.push(one).drop_last() =~= names);
}

/// A connector is found exactly if one was kept for the same client profile and the same
/// offer, and it is that one.
pub proof fn a_connector_is_found_by_its_likeness<V>(
    c: &Connectors<V>,
    profile: &ClientProfile,
    offer: &[u8],
    r: Option<&V>,
)
    requires
        call_ensures(Connectors::<V>::get, (c, profile, offer), r),
    ensures
        r is Some <==> exists|i: int|
            0 <= i < c.kept@.len() && (#[trigger] c.kept@[i]).profile@ == profile@ && c.kept@[i].offer@ == offer@,
        r is Some ==> exists|i: int|
            0 <= i < c.kept@.len() && (#[trigger] c.kept@[i]).profile@ == profile@ && c.kept@[i].offer@ == offer@
                && c.kept@[i].connector == *r->0,
{
    let likeness = Likeness { profile: profile@, offer: offer@ };
    if r is Some {
        let i = choose|i: int|
            0 <= i < c.kept@.len() && (#[trigger] c.kept@[i]).likeness() == likeness && c.kept@[i].connector == *r->0;
        assert(c.kept@[i].profile@ == profile@);
    }
    if exists|i: int|
        0 <= i < c.kept@.len() && (#[trigger] c.kept@[i]).profile@ == profile@ && c.kept@[i].offer@ == offer@ {
        let i = choose|i: int|
            0 <= i < c.kept@.len() && (#[trigger] c.kept@[i]).profile@ == profile@ && c.kept@[i].offer@ == offer@;
        assert(c.kept@[i].likeness() == likeness);
        assert(is_kept(c.kept@, likeness));
    }
}

/// No more than 16 connectors are kept: the seventeenth forgets all others.
pub proof fn connectors_are_forgotten_all_at_once<V>(kept: Seq<Kept<V>>)
    ensures
        kept.len() >= 16 ==> spared(kept).len() == 0,
        kept.len() < 16 ==> spared(kept) == kept,
{
}

} // verus!
