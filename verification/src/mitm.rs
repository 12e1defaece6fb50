//! Interception: which hosts are terminated, and on which wire.

use vstd::prelude::*;

#[allow(unused_imports)]
use crate::fields;
use crate::hosts::NameSet;
#[allow(unused_imports)]
use crate::name;
use crate::name::{to_lowered, Name};
use crate::text::{chars_of, same_bytes};

verus! {

/// The application protocol of a terminated connection.
#[derive(Clone, Copy, Debug, PartialEq, Eq, Structural)]
pub enum Wire {
    Http1,
    Http2,
}

/// The name that a wire has in protocol negotiation.
pub open spec fn identifier_of(wire: Wire) -> Seq<u8> {
    match wire {
        Wire::Http1 => fields::ascii("http/1.1"@),
        Wire::Http2 => fields::ascii("h2"@),
    }
}

/// The wire that a name stands for.
pub open spec fn wire_of(name: Seq<u8>) -> Option<Wire> {
    if name == identifier_of(Wire::Http2) {
        Some(Wire::Http2)
    } else if name == identifier_of(Wire::Http1) {
        Some(Wire::Http1)
    } else {
        None
    }
}

impl Wire {
    /// Both wires, in server preference order.
    pub const ALL: [Wire; 2] = [Wire::Http2, Wire::Http1];

    pub fn identifier(self) -> (r: &'static [u8])
        ensures
            r@ == identifier_of(self),
    {
        match self {
            Wire::Http1 => "http/1.1".as_bytes(),
            Wire::Http2 => "h2".as_bytes(),
        }
    }

    /// The wire that `name` stands for; `None` for a protocol that is not
    /// terminated.
    pub fn from_identifier(name: &[u8]) -> (r: Option<Self>)
        ensures
            r == wire_of(name@),
    {
        if same_bytes(name, Wire::Http2.identifier()) {
            Some(Wire::Http2)
        } else if same_bytes(name, Wire::Http1.identifier()) {
            Some(Wire::Http1)
        } else {
            None
        }
    }

    /// The negotiated wire, `Http1` where none was.
    pub fn from_alpn(selected: Option<&[u8]>) -> (r: Self)
        ensures
            r == (match selected {
                Some(name) => match wire_of(name@) {
                    Some(wire) => wire,
                    None => Wire::Http1,
                },
                None => Wire::Http1,
            }),
    {
        match selected {
            Some(name) => match Wire::from_identifier(name) {
                Some(wire) => wire,
                None => Wire::Http1,
            },
            None => Wire::Http1,
        }
    }
}

/// A wire's name stands for that wire.
pub proof fn an_identifier_names_its_wire(wire: Wire)
    ensures
        wire_of(identifier_of(wire)) == Some(wire),
        1 <= identifier_of(wire).len() <= 255,
{
    reveal_strlit("http/1.1");
    reveal_strlit("h2");
    assert(vstd::utf8::is_ascii_chars("http/1.1"@));
    assert(vstd::utf8::is_ascii_chars("h2"@));
    vstd::utf8::is_ascii_chars_encode_utf8("http/1.1"@);
    vstd::utf8::is_ascii_chars_encode_utf8("h2"@);
    assert(identifier_of(Wire::Http1).len() == 8);
    assert(identifier_of(Wire::Http2).len() == 2);
}

/// Exactly two protocols are terminated, by their registered names: `h2`, and
/// `http/1.1`.
pub proof fn two_protocols_are_terminated()
    ensures
        forall|name: Seq<u8>| #[trigger]
            wire_of(name) == (if name == seq![0x68u8, 0x32] {
                Some(Wire::Http2)
            } else if name == seq![0x68u8, 0x74, 0x74, 0x70, 0x2f, 0x31, 0x2e, 0x31] {
                Some(Wire::Http1)
            } else {
                None
            }),
        identifier_of(Wire::Http2) == seq![0x68u8, 0x32],
        identifier_of(Wire::Http1) == seq![0x68u8, 0x74, 0x74, 0x70, 0x2f, 0x31, 0x2e, 0x31],
{
    reveal_strlit("http/1.1");
    reveal_strlit("h2");
    assert(vstd::utf8::is_ascii_chars("http/1.1"@));
    assert(vstd::utf8::is_ascii_chars("h2"@));
    vstd::utf8::is_ascii_chars_encode_utf8("http/1.1"@);
    vstd::utf8::is_ascii_chars_encode_utf8("h2"@);
    assert(identifier_of(Wire::Http2) =~= seq![0x68u8, 0x32]);
    assert(identifier_of(Wire::Http1) =~= seq![0x68u8, 0x74, 0x74, 0x70, 0x2f, 0x31, 0x2e, 0x31]);
}

/// Whether a host is intercepted or spliced.
#[derive(Clone, Copy, Debug, PartialEq, Eq, Structural)]
pub enum InterceptDecision {
    Intercept,
    Splice,
}

/// The allowlist: hosts that are intercepted, by their exact name.
pub struct InterceptPolicy {
    allow: NameSet,
}

impl View for InterceptPolicy {
    type V = Set<Seq<char>>;

    closed spec fn view(&self) -> Set<Seq<char>> {
        self.allow@
    }
}

fn lowered_text(host: &str) -> (r: Vec<char>)
    ensures
        r@ == name::lowered(host@),
{
    let chars: Vec<char> = chars_of(host);
    to_lowered(chars.as_slice())
}

/// The hosts of a list, in lower case.
pub open spec fn hosts_of(hosts: Seq<String>) -> Set<Seq<char>>
    decreases hosts.len(),
{
    if hosts.len() == 0 {
        Set::empty()
    } else {
        hosts_of(hosts.drop_last()).insert(name::lowered(hosts.last()@))
    }
}

impl InterceptPolicy {
    pub closed spec fn wf(&self) -> bool {
        self.allow.wf()
    }

    /// The policy that intercepts exactly `hosts`, whatever their case.
    pub fn new(hosts: Vec<String>) -> (r: Self)
        ensures
            r.wf(),
            r@ == hosts_of(hosts@),
    {
        let mut allow = NameSet::new();
        let n: usize = hosts.len();
        let mut i: usize = 0;
        assert(hosts@.take(0) =~= seq![]);
        while i < n
            invariant
                i <= n,
                n == hosts@.len(),
                allow.wf(),
                allow@ == hosts_of(hosts@.take(i as int)),
            decreases n - i,
        {
            allow.insert(&Name::of(lowered_text(hosts[i].as_str())));
            assert(hosts@.take(i + 1).drop_last() =~= hosts@.take(i as int));
            i += 1;
        }
        assert(hosts@.take(n as int) =~= hosts@);
        InterceptPolicy { allow }
    }

    /// Intercepts exactly the hosts on the list.
    pub fn decide(&self, host: &str) -> (r: InterceptDecision)
        requires
            self.wf(),
        ensures
            r == (if self@.contains(name::lowered(host@)) {
                InterceptDecision::Intercept
            } else {
                InterceptDecision::Splice
            }),
    {
        let chars: Vec<char> = lowered_text(host);
        if self.allow.contains(chars.as_slice()) {
            InterceptDecision::Intercept
        } else {
            InterceptDecision::Splice
        }
    }

    /// How many hosts are on the list, as far as a `usize` counts.
    pub fn len(&self) -> (n: usize)
        requires
            self.wf(),
        ensures
            n == (if self@.len() < usize::MAX {
                self@.len() as int
            } else {
                usize::MAX as int
            }),
    {
        self.allow.len()
    }

    pub fn is_empty(&self) -> (r: bool)
        requires
            self.wf(),
        ensures
            r == (self@.len() == 0),
    {
        self.allow.len() == 0
    }
}

/// A host is on the list exactly if the list names it, case aside.
pub proof fn exactly_the_named_hosts_are_intercepted(hosts: Seq<String>, host: Seq<char>)
    ensures
        hosts_of(hosts).contains(name::lowered(host)) <==> exists|i: int|
            0 <= i < hosts.len() && name::lowered((#[trigger] hosts[i])@) == name::lowered(host),
    decreases hosts.len(),
{
    if hosts.len() > 0 {
        let rest = hosts.drop_last();
        exactly_the_named_hosts_are_intercepted(rest, host);
        if hosts_of(rest).contains(name::lowered(host)) {
            let i = choose|i: int|
                0 <= i < rest.len() && name::lowered((#[trigger] rest[i])@) == name::lowered(host);
            assert(hosts[i] == rest[i]);
        }
        if exists|i: int|
            0 <= i < hosts.len() && name::lowered((#[trigger] hosts[i])@) == name::lowered(host) {
            let i = choose|i: int|
                0 <= i < hosts.len() && name::lowered((#[trigger] hosts[i])@) == name::lowered(
                    host,
                );
            if i < rest.len() {
                assert(rest[i] == hosts[i]);
            }
        }
    }
}

/// Counts exchanges whose two legs speak different versions.
#[derive(Debug)]
pub struct VersionCrossings {
    pub count: u64,
}

impl VersionCrossings {
    pub fn new() -> (r: Self)
        ensures
            r.count == 0,
    {
        VersionCrossings { count: 0 }
    }

    /// Notes an exchange and returns whether its wires differ.
    pub fn record(&mut self, client: Wire, upstream: Wire) -> (r: bool)
        ensures
            r == (client != upstream),
            final(self).count == (if client != upstream {
                (old(self).count + 1) % 0x1_0000_0000_0000_0000
            } else {
                old(self).count as int
            }),
    {
        let crossed: bool = client != upstream;
        if crossed {
            self.count = self.count.wrapping_add(1);
        }
        crossed
    }

    pub fn count(&self) -> (n: u64)
        ensures
            n == self.count,
    {
        self.count
    }
}

/// A host is intercepted exactly if the list names it, in whatever case.
pub proof fn a_policy_intercepts_what_it_names(
    hosts: Vec<String>,
    policy: InterceptPolicy,
    host: &str,
    r: InterceptDecision,
)
    requires
        call_ensures(InterceptPolicy::new, (hosts,), policy),
        call_ensures(InterceptPolicy::decide, (&policy, host), r),
    ensures
        r == InterceptDecision::Intercept <==> exists|i: int|
            0 <= i < hosts@.len() && name::lowered((#[trigger] hosts@[i])@) == name::lowered(host@),
        r == InterceptDecision::Intercept || r == InterceptDecision::Splice,
{
    exactly_the_named_hosts_are_intercepted(hosts@, host@);
}

/// An exchange crosses versions exactly if its two wires differ, and only such are counted.
pub proof fn only_crossings_are_counted(c: &mut VersionCrossings, client: Wire, upstream: Wire, r: bool)
    requires
        call_ensures(VersionCrossings::record, (c, client, upstream), r),
        old(c).count < u64::MAX,
    ensures
        r <==> client != upstream,
        final(c).count == old(c).count + (if client == upstream {
            0int
        } else {
            1
        }),
{
}

} // verus!
