//! The host policy: which names are blocked, and which are exempt.

use vstd::prelude::*;
use vstd::slice::slice_subrange;

use crate::name::Name;
#[allow(unused_imports)]
use crate::text;

verus! {

/// Chains that a set of names is spread over.
pub const CHAINS: usize = 4096;

/// The chain that holds `s`.
pub open spec fn chain_of(s: Seq<char>) -> int
    decreases s.len(),
{
    if s.len() == 0 {
        0
    } else {
        (chain_of(s.drop_last()) * 31 + s.last() as u32) % (CHAINS as int)
    }
}

fn find_chain(s: &[char]) -> (r: usize)
    ensures
        r == chain_of(s@),
        r < CHAINS,
{
    let n: usize = s.len();
    let mut i: usize = 0;
    let mut h: u32 = 0;
    assert(s@.take(0) =~= seq![]);
    while i < n
        invariant
            i <= n,
            n == s@.len(),
            h < CHAINS,
            h == chain_of(s@.take(i as int)),
        decreases n - i,
    {
        let c: u32 = s[i] as u32;
        proof {
            vstd::utf8::char_is_scalar(s@[i as int]);
            assert(s@.take(i + 1).drop_last() =~= s@.take(i as int));
        }
        h = (h * 31 + c) % (CHAINS as u32);
        i += 1;
    }
    assert(s@.take(n as int) =~= s@);
    h as usize
}

/// Whether a chain holds `s`.
pub open spec fn in_chain(chain: Seq<Name>, s: Seq<char>) -> bool {
    exists|i: int| 0 <= i < chain.len() && (#[trigger] chain[i])@ == s
}

/// A set of names.
pub struct NameSet {
    chains: Vec<Vec<Name>>,
    len: usize,
}

impl View for NameSet {
    type V = Set<Seq<char>>;

    closed spec fn view(&self) -> Set<Seq<char>> {
        Set::new(
            |s: Seq<char>|
                0 <= chain_of(s) < self.chains@.len() && in_chain(
                    self.chains@[chain_of(s)]@,
                    s,
                ),
        )
    }
}

impl NameSet {
    pub closed spec fn wf(&self) -> bool {
        &&& self.chains@.len() == CHAINS
        &&& self@.finite()
        &&& self.len == (if self@.len() < usize::MAX {
            self@.len() as int
        } else {
            usize::MAX as int
        })
    }

    pub fn new() -> (r: Self)
        ensures
            r.wf(),
            r@ == Set::<Seq<char>>::empty(),
    {
        let mut chains: Vec<Vec<Name>> = Vec::new();
        let mut i: usize = 0;
        while i < CHAINS
            invariant
                i <= CHAINS,
                chains@.len() == i,
                forall|j: int| 0 <= j < i ==> (#[trigger] chains@[j])@.len() == 0,
            decreases CHAINS - i,
        {
            chains.push(Vec::new());
            i += 1;
        }
        let r = NameSet { chains, len: 0 };
        assert(r@ =~= Set::<Seq<char>>::empty());
        r
    }

    /// How many names the set holds, as far as a `usize` counts.
    pub fn len(&self) -> (n: usize)
        requires
            self.wf(),
        ensures
            n == (if self@.len() < usize::MAX {
                self@.len() as int
            } else {
                usize::MAX as int
            }),
    {
        self.len
    }

    pub fn contains(&self, s: &[char]) -> (r: bool)
        requires
            self.wf(),
        ensures
            r == self@.contains(s@),
    {
        let at: usize = find_chain(s);
        let chain: &Vec<Name> = &self.chains[at];
        let n: usize = chain.len();
        let mut i: usize = 0;
        while i < n
            invariant
                i <= n,
                n == chain@.len(),
                self.wf(),
                at == chain_of(s@),
                at < CHAINS,
                *chain == self.chains@[at as int],
                forall|j: int| 0 <= j < i ==> (#[trigger] chain@[j])@ != s@,
            decreases n - i,
        {
            if chain[i].same(s) {
                assert(chain@[i as int]@ == s@);
                assert(in_chain(chain@, s@));
                return true;
            }
            i += 1;
        }
        false
    }

    pub fn insert(&mut self, name: &Name)
        requires
            old(self).wf(),
        ensures
            final(self).wf(),
            final(self)@ == old(self)@.insert(name@),
    {
        let s: &[char] = name.as_chars();
        if self.contains(s) {
            assert(self@ =~= old(self)@.insert(name@));
            return;
        }
        let at: usize = find_chain(s);
        let copy = Name::of(slice_to_vec(s));
        let ghost before = self.chains@;
        let chain: &mut Vec<Name> = &mut self.chains[at];
        chain.push(copy);
        proof {
            let after = self.chains@;
            assert(after[at as int]@ == before[at as int]@.push(copy));
            assert forall|t: Seq<char>| self@.contains(t) == old(self)@.insert(name@).contains(
                t,
            ) by {
                let c = chain_of(t);
                if 0 <= c < before.len() {
                    if c == at {
                        if in_chain(before[c]@, t) {
                            let i = choose|i: int|
                                0 <= i < before[c]@.len() && (#[trigger] before[c]@[i])@ == t;
                            assert(after[c]@[i]@ == t);
                        }
                        if t == name@ {
                            assert(after[c]@[before[c]@.len() as int]@ == t);
                        }
                        if in_chain(after[c]@, t) {
                            let i = choose|i: int|
                                0 <= i < after[c]@.len() && (#[trigger] after[c]@[i])@ == t;
                            if i < before[c]@.len() {
                                assert(before[c]@[i]@ == t);
                            }
                        }
                    } else {
                        assert(after[c] == before[c]);
                    }
                }
            }
            assert(self@ =~= old(self)@.insert(name@));
        }
        if self.len < usize::MAX {
            let ghost held = *self;
            self.len = self.len + 1;
            assert(self@ =~= held@);
        }
    }
}

/// A vector of what `s` holds.
pub fn slice_to_vec(s: &[char]) -> (r: Vec<char>)
    ensures
        r@ == s@,
{
    let mut r: Vec<char> = Vec::new();
    let n: usize = s.len();
    let mut i: usize = 0;
    while i < n
        invariant
            i <= n,
            n == s@.len(),
            r@ == s@.take(i as int),
        decreases n - i,
    {
        r.push(s[i]);
        assert(s@.take(i + 1) =~= s@.take(i as int).push(s@[i as int]));
        i += 1;
    }
    assert(s@.take(n as int) =~= s@);
    r
}

/// The name one label up: what follows the first dot, the root where none is.
pub open spec fn parent(s: Seq<char>) -> Seq<char> {
    let n = text::until(s, '.') as int;
    if n >= s.len() {
        seq![]
    } else {
        s.skip(n + 1)
    }
}

/// Whether `name` is `rule` or a name under it.
pub open spec fn under(name: Seq<char>, rule: Seq<char>) -> bool
    decreases name.len(),
{
    name == rule || (name.len() > 0 && under(parent(name), rule))
}

/// The closest name to `name`, itself or upward, that `set` holds.
pub open spec fn closest(set: Set<Seq<char>>, name: Seq<char>) -> Option<Seq<char>>
    decreases name.len(),
{
    if set.contains(name) {
        Some(name)
    } else if name.len() == 0 {
        None
    } else {
        closest(set, parent(name))
    }
}

/// What the policy says of a host.
#[derive(Clone, Copy, Debug, PartialEq, Eq, Structural)]
pub enum HostVerdict {
    Allowed,
    Blocked,
}

/// A verdict and the rule it rests on.
#[derive(Clone, Debug, PartialEq, Eq)]
pub struct Judgment {
    pub verdict: HostVerdict,
    pub matched: Option<Name>,
}

/// The names that a policy blocks and exempts.
pub struct Rules {
    pub blocked: Set<Seq<char>>,
    pub allowed: Set<Seq<char>>,
}

/// What the rules say of `name`: an exemption at or above it beats every
/// block, and no rule at all allows.
pub open spec fn judged(rules: Rules, name: Seq<char>) -> (HostVerdict, Option<Seq<char>>) {
    match closest(rules.allowed, name) {
        Some(rule) => (HostVerdict::Allowed, Some(rule)),
        None => match closest(rules.blocked, name) {
            Some(rule) => (HostVerdict::Blocked, Some(rule)),
            None => (HostVerdict::Allowed, None),
        },
    }
}

/// The rules with one more.
pub open spec fn with_rule(rules: Rules, verdict: HostVerdict, name: Seq<char>) -> Rules {
    match verdict {
        HostVerdict::Blocked => Rules { blocked: rules.blocked.insert(name), ..rules },
        HostVerdict::Allowed => Rules { allowed: rules.allowed.insert(name), ..rules },
    }
}

/// An index of host rules.
pub struct HostPolicy {
    blocked: NameSet,
    allowed: NameSet,
}

impl View for HostPolicy {
    type V = Rules;

    closed spec fn view(&self) -> Rules {
        Rules { blocked: self.blocked@, allowed: self.allowed@ }
    }
}

impl HostPolicy {
    pub closed spec fn wf(&self) -> bool {
        self.blocked.wf() && self.allowed.wf()
    }

    /// A policy that allows every host.
    pub fn new() -> (r: Self)
        ensures
            r.wf(),
            r@ == (Rules {
                blocked: Set::<Seq<char>>::empty(),
                allowed: Set::<Seq<char>>::empty(),
            }),
    {
        HostPolicy { blocked: NameSet::new(), allowed: NameSet::new() }
    }

    /// How many rules the policy holds, as far as a `usize` counts.
    pub fn len(&self) -> (n: usize)
        requires
            self.wf(),
        ensures
            n == (if self@.blocked.len() + self@.allowed.len() < usize::MAX {
                (self@.blocked.len() + self@.allowed.len()) as int
            } else {
                usize::MAX as int
            }),
    {
        self.blocked.len().saturating_add(self.allowed.len())
    }

    pub fn is_empty(&self) -> (r: bool)
        requires
            self.wf(),
        ensures
            r == (self@.blocked.len() + self@.allowed.len() == 0),
    {
        self.len() == 0
    }

    /// Adds a rule for `name` and every name under it.
    pub fn insert_name(&mut self, verdict: HostVerdict, name: &Name)
        requires
            old(self).wf(),
        ensures
            final(self).wf(),
            final(self)@ == with_rule(old(self)@, verdict, name@),
    {
        match verdict {
            HostVerdict::Blocked => self.blocked.insert(name),
            HostVerdict::Allowed => self.allowed.insert(name),
        }
    }

    /// What the policy says of `name`.
    pub fn judge(&self, name: &Name) -> (r: Judgment)
        requires
            self.wf(),
        ensures
            r.verdict == judged(self@, name@).0,
            match judged(self@, name@).1 {
                Some(rule) => r.matched is Some && r.matched->0@ == rule,
                None => r.matched is None,
            },
    {
        match find_closest(&self.allowed, name.as_chars()) {
            Some(rule) => Judgment { verdict: HostVerdict::Allowed, matched: Some(rule) },
            None => match find_closest(&self.blocked, name.as_chars()) {
                Some(rule) => Judgment { verdict: HostVerdict::Blocked, matched: Some(rule) },
                None => Judgment { verdict: HostVerdict::Allowed, matched: None },
            },
        }
    }
}

fn find_closest(set: &NameSet, name: &[char]) -> (r: Option<Name>)
    requires
        set.wf(),
    ensures
        match r {
            Some(rule) => closest(set@, name@) == Some(rule@),
            None => closest(set@, name@) is None,
        },
{
    let mut rest: &[char] = name;
    loop
        invariant
            set.wf(),
            closest(set@, rest@) == closest(set@, name@),
        decreases rest@.len(),
    {
        if set.contains(rest) {
            return Some(Name::of(slice_to_vec(rest)));
        }
        let n: usize = rest.len();
        if n == 0 {
            return None;
        }
        let mut i: usize = 0;
        while i < n && rest[i] != '.'
            invariant
                i <= n,
                n == rest@.len(),
                forall|j: int| 0 <= j < i ==> rest@[j] != '.',
            decreases n - i,
        {
            i += 1;
        }
        proof {
            text::lemma_until_is(rest@, '.', i as int);
        }
        let from: usize = if i < n {
            i + 1
        } else {
            n
        };
        let next: &[char] = slice_subrange(rest, from, n);
        assert(next@ =~= parent(rest@));
        rest = next;
    }
}

/// A name is under a rule exactly if it ends in the rule, as a whole or behind
/// a dot; every name is under the root.
pub proof fn under_is_a_dotted_suffix(name: Seq<char>, rule: Seq<char>)
    ensures
        under(name, rule) <==> {
            ||| rule.len() == 0
            ||| name == rule
            ||| name.len() > rule.len() && name.skip(name.len() - rule.len()) == rule
                && name[name.len() - rule.len() - 1] == '.'
        },
    decreases name.len(),
{
    text::lemma_until(name, '.');
    let n = text::until(name, '.') as int;
    let p = parent(name);
    if name.len() > 0 && name != rule {
        under_is_a_dotted_suffix(p, rule);
        let k = name.len() - rule.len();
        if n < name.len() {
            assert(p == name.skip(n + 1));
            if under(p, rule) && rule.len() > 0 {
                if p == rule {
                    assert(k == n + 1);
                } else {
                    assert(p.skip(p.len() - rule.len()) =~= name.skip(k));
                    assert(p[p.len() - rule.len() - 1] == name[k - 1]);
                }
            }
            if rule.len() > 0 && name.len() > rule.len() && name.skip(k) == rule && name[k - 1]
                == '.' {
                assert(n <= k - 1) by {
                    if n > k - 1 {
                        assert(name[k - 1] != '.');
                    }
                }
                if n == k - 1 {
                    assert(p == rule);
                } else {
                    assert(p.skip(p.len() - rule.len()) =~= name.skip(k));
                    assert(p[p.len() - rule.len() - 1] == name[k - 1]);
                }
            }
        } else {
            assert(p.len() == 0);
            assert(forall|i: int| 0 <= i < name.len() ==> name[i] != '.');
        }
    }
    if rule.len() == 0 {
        assert(rule =~= seq![]);
        if name.len() == 0 {
            assert(name =~= rule);
        }
    }
}

/// The rule that `closest` finds holds the name, and where none is found no
/// rule of the set does.
pub proof fn closest_finds_every_rule_above(set: Set<Seq<char>>, name: Seq<char>)
    ensures
        match closest(set, name) {
            Some(rule) => set.contains(rule) && under(name, rule),
            None => forall|rule: Seq<char>| set.contains(rule) ==> !#[trigger] under(name, rule),
        },
    decreases name.len(),
{
    if !set.contains(name) && name.len() > 0 {
        text::lemma_until(name, '.');
        closest_finds_every_rule_above(set, parent(name));
        if closest(set, parent(name)) is None {
            assert forall|rule: Seq<char>| set.contains(rule) implies !#[trigger] under(
                name,
                rule,
            ) by {
                assert(!under(parent(name), rule));
            }
        }
    }
}

/// An exemption at or above a name is never overridden, however specific the
/// blocks beside it are, and it names itself as the reason.
pub proof fn an_exception_beats_every_block(rules: Rules, name: Seq<char>, exempt: Seq<char>)
    requires
        rules.allowed.contains(exempt),
        under(name, exempt),
    ensures
        judged(rules, name).0 == HostVerdict::Allowed,
        judged(rules, name).1 matches Some(rule) && rules.allowed.contains(rule) && under(
            name,
            rule,
        ),
{
    closest_finds_every_rule_above(rules.allowed, name);
}

/// Only a name that a blocking rule names, or one under it, is blocked.
pub proof fn only_names_under_a_block_are_blocked(rules: Rules, name: Seq<char>)
    ensures
        judged(rules, name).0 == HostVerdict::Blocked <==> (exists|rule: Seq<char>|
            rules.blocked.contains(rule) && #[trigger] under(name, rule)) && !(exists|
            rule: Seq<char>,
        |
            rules.allowed.contains(rule) && #[trigger] under(name, rule)),
{
    closest_finds_every_rule_above(rules.allowed, name);
    closest_finds_every_rule_above(rules.blocked, name);
}

/// The rule that a judgment rests on is the most specific of its kind: no other rule
/// at or above the name is longer.
pub proof fn the_closest_rule_is_the_most_specific(set: Set<Seq<char>>, name: Seq<char>, other: Seq<char>)
    requires
        set.contains(other),
        under(name, other),
    ensures
        closest(set, name) matches Some(rule) && rule.len() >= other.len(),
    decreases name.len(),
{
    under_is_a_dotted_suffix(name, other);
    if !set.contains(name) {
        text::lemma_until(name, '.');
        if name.len() > 0 {
            the_closest_rule_is_the_most_specific(set, parent(name), other);
        }
    }
}

/// A host is blocked exactly if a blocking rule is it or stands above it, behind a
/// dot, and no exempting rule does; and the rule that decided is named.
pub proof fn a_host_is_judged_by_the_rules_above_it(policy: &HostPolicy, name: &Name, r: Judgment)
    requires
        policy.wf(),
        call_ensures(HostPolicy::judge, (policy, name), r),
    ensures
        r.verdict == HostVerdict::Blocked <==> (exists|rule: Seq<char>|
            policy@.blocked.contains(rule) && #[trigger] under(name@, rule)) && !(exists|rule: Seq<char>|
            policy@.allowed.contains(rule) && #[trigger] under(name@, rule)),
        r.verdict == HostVerdict::Blocked ==> r.matched is Some && policy@.blocked.contains(r.matched->0@) && under(
            name@,
            r.matched->0@,
        ),
        r.verdict == HostVerdict::Allowed && r.matched is Some ==> policy@.allowed.contains(r.matched->0@) && under(
            name@,
            r.matched->0@,
        ),
        r.matched is None ==> r.verdict == HostVerdict::Allowed && !(exists|rule: Seq<char>|
            (policy@.allowed.contains(rule) || policy@.blocked.contains(rule)) && #[trigger] under(name@, rule)),
{
    only_names_under_a_block_are_blocked(policy@, name@);
    closest_finds_every_rule_above(policy@.allowed, name@);
    closest_finds_every_rule_above(policy@.blocked, name@);
}

/// A rule that is added is a rule, of its own kind and beside all others.
pub proof fn an_added_rule_stands_beside_the_others(
    policy: &mut HostPolicy,
    verdict: HostVerdict,
    name: &Name,
    r: (),
    other: Seq<char>,
)
    requires
        old(policy).wf(),
        call_ensures(HostPolicy::insert_name, (policy, verdict, name), r),
    ensures
        final(policy)@.blocked.contains(other) <==> old(policy)@.blocked.contains(other) || (verdict
            == HostVerdict::Blocked && other == name@),
        final(policy)@.allowed.contains(other) <==> old(policy)@.allowed.contains(other) || (verdict
            == HostVerdict::Allowed && other == name@),
{
}

} // verus!
