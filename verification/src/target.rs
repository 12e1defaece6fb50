//! What a proxy is asked to reach.

use vstd::prelude::*;

use crate::addr::IpAddr;
#[allow(unused_imports)]
use crate::literal;
use crate::literal::push_endpoint;
use crate::name::DomainName;
#[allow(unused_imports)]
use crate::text;
use crate::text::{push_decimal, push_text};

verus! {

/// An address and a port.
#[derive(Clone, Copy, Debug, PartialEq, Eq, Hash, Structural)]
pub struct SocketAddr {
    pub ip: IpAddr,
    pub port: u16,
}

/// A destination: an address, or a host for the proxy to resolve.
#[derive(Clone, Debug, PartialEq, Eq)]
pub enum Target {
    Ip(SocketAddr),
    Domain { host: DomainName, port: u16 },
}

/// The text form of a target.
pub open spec fn target_text(t: Target) -> Seq<char> {
    match t {
        Target::Ip(a) => literal::endpoint_text(a.ip, a.port),
        Target::Domain { host, port } => host@ + ":"@ + text::decimal(port as nat),
    }
}

/// Longer than any target's text, in characters.
pub const TEXT_BOUND: usize = 1_000_000;

impl Target {
    /// `host:port`, an IPv6 address in brackets.
    pub fn text(&self) -> (r: String)
        ensures
            r@ == target_text(*self),
            r@.len() < TEXT_BOUND,
    {
        let mut r = String::new();
        match self {
            Target::Ip(a) => {
                push_endpoint(&mut r, a.ip, a.port);
                proof {
                    lemma_endpoint_bound(a.ip, a.port);
                    assert(r@ =~= target_text(*self));
                }
            },
            Target::Domain { host, port } => {
                let name: &str = host.as_str();
                push_text(&mut r, name);
                push_text(&mut r, ":");
                push_decimal(&mut r, *port as u64);
                proof {
                    reveal_strlit(":");
                    lemma_decimal_bound(*port as nat);
                    assert(r@ =~= target_text(*self));
                }
            },
        }
        r
    }
}

proof fn lemma_decimal_bound(n: nat)
    ensures
        text::decimal(n).len() <= n + 1,
    decreases n,
{
    if n >= 10 {
        lemma_decimal_bound(n / 10);
    }
}

proof fn lemma_hex_bound(n: int)
    requires
        0 <= n,
    ensures
        literal::hex(n).len() <= n + 1,
    decreases n,
{
    if n >= 16 {
        lemma_hex_bound(n / 16);
    }
}

proof fn lemma_colon_bound(g: Seq<u16>)
    ensures
        literal::colon_text(g).len() <= g.len() * 65537,
    decreases g.len(),
{
    reveal_strlit(":");
    if g.len() == 1 {
        lemma_hex_bound(g[0] as int);
    } else if g.len() > 1 {
        lemma_colon_bound(g.drop_last());
        lemma_hex_bound(g.last() as int);
        assert((g.len() - 1) * 65537 + 65537 == g.len() * 65537) by (nonlinear_arith);
    }
}

proof fn lemma_ipv4_bound(a: crate::addr::Ipv4Addr)
    ensures
        literal::ipv4_text(a).len() <= 1100,
{
    reveal_strlit(".");
    lemma_decimal_bound(a.a as nat);
    lemma_decimal_bound(a.b as nat);
    lemma_decimal_bound(a.c as nat);
    lemma_decimal_bound(a.d as nat);
}

proof fn lemma_run_bound(g: Seq<u16>, n: int)
    requires
        0 <= n <= g.len(),
    ensures
        0 <= literal::longest_run(g, n).0 <= g.len(),
        0 <= literal::longest_run(g, n).1,
        literal::longest_run(g, n).0 + literal::longest_run(g, n).1 <= g.len(),
    decreases n,
{
    if n > 0 {
        lemma_run_bound(g, n - 1);
        literal::lemma_zero_run(g, n - 1);
    }
}

proof fn lemma_endpoint_bound(a: IpAddr, port: u16)
    ensures
        literal::endpoint_text(a, port).len() < TEXT_BOUND,
{
    reveal_strlit(":");
    reveal_strlit("[");
    reveal_strlit("]:");
    reveal_strlit("::");
    reveal_strlit("::ffff:");
    lemma_decimal_bound(port as nat);
    match a {
        IpAddr::V4(x) => {
            lemma_ipv4_bound(x);
        },
        IpAddr::V6(x) => {
            let g = x.groups();
            let (at, len) = literal::longest_run(g, 8);
            lemma_run_bound(g, 8);
            lemma_ipv4_bound(literal::mapped(x));
            lemma_colon_bound(g);
            lemma_colon_bound(g.take(at));
            lemma_colon_bound(g.skip(at + len));
            assert(g.take(at).len() * 65537 <= 8 * 65537) by (nonlinear_arith)
                requires
                    g.take(at).len() <= 8,
            ;
            assert(g.skip(at + len).len() + g.take(at).len() <= 8);
            assert(g.take(at).len() * 65537 + g.skip(at + len).len() * 65537 <= 8 * 65537)
                by (nonlinear_arith)
                requires
                    g.skip(at + len).len() + g.take(at).len() <= 8,
            ;
        },
    }
}

/// A target's text is its host or address, a colon, and its port in decimal; an IPv6
/// address stands in brackets. So the port reads back from behind the last colon.
pub proof fn a_target_is_written_with_its_port(t: Target)
    ensures
        ({
            let s = target_text(t);
            let port = match t {
                Target::Ip(a) => a.port,
                Target::Domain { port, .. } => port,
            };
            let head = match t {
                Target::Ip(a) => match a.ip {
                    IpAddr::V4(x) => literal::ipv4_text(x),
                    IpAddr::V6(x) => seq!['['] + literal::ipv6_text(x) + seq![']'],
                },
                Target::Domain { host, .. } => host@,
            };
            &&& s == head + seq![':'] + text::decimal(port as nat)
            &&& text::number_of(s.skip(head.len() as int + 1)) == port
        }),
{
    reveal_strlit(":");
    reveal_strlit("[");
    reveal_strlit("]:");
    let s = target_text(t);
    let port = match t {
        Target::Ip(a) => a.port,
        Target::Domain { port, .. } => port,
    };
    let head = match t {
        Target::Ip(a) => match a.ip {
            IpAddr::V4(x) => literal::ipv4_text(x),
            IpAddr::V6(x) => seq!['['] + literal::ipv6_text(x) + seq![']'],
        },
        Target::Domain { host, .. } => host@,
    };
    text::decimals_write_their_number(port as nat);
    assert(s =~= head + seq![':'] + text::decimal(port as nat));
    assert(s.skip(head.len() as int + 1) =~= text::decimal(port as nat));
}

} // verus!
