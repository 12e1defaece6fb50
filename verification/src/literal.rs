//! Addresses as text: reading and writing their usual notation.

use vstd::prelude::*;
use vstd::slice::slice_subrange;

use crate::addr::{IpAddr, Ipv4Addr, Ipv6Addr};
#[allow(unused_imports)]
use crate::text;
use crate::text::{push_char, push_decimal, push_text, split_chars};

verus! {

/// What `c` counts as a digit, up to base sixteen; 99 where it is none.
pub open spec fn digit_value(c: char) -> int {
    let n = c as int;
    if '0' <= c <= '9' {
        n - 48
    } else if 'a' <= c <= 'f' {
        n - 87
    } else if 'A' <= c <= 'F' {
        n - 55
    } else {
        99
    }
}

fn read_digit(c: char) -> (r: u32)
    ensures
        r == digit_value(c),
{
    let n: u32 = c as u32;
    if '0' <= c && c <= '9' {
        n - 48
    } else if 'a' <= c && c <= 'f' {
        n - 87
    } else if 'A' <= c && c <= 'F' {
        n - 55
    } else {
        99
    }
}

/// The number that `s` writes in `base`, if every character is a digit of it.
pub open spec fn number(s: Seq<char>, base: int) -> Option<int>
    decreases s.len(),
{
    if s.len() == 0 {
        Some(0)
    } else {
        match number(s.drop_last(), base) {
            Some(v) if digit_value(s.last()) < base => Some(v * base + digit_value(s.last())),
            _ => None,
        }
    }
}

proof fn lemma_number_fails(s: Seq<char>, base: int, i: int)
    requires
        0 <= i <= s.len(),
        number(s.take(i), base) is None,
    ensures
        number(s, base) is None,
    decreases s.len() - i,
{
    if i < s.len() {
        assert(s.take(i + 1).drop_last() =~= s.take(i));
        lemma_number_fails(s, base, i + 1);
    } else {
        assert(s.take(i) =~= s);
    }
}

/// Reads at most four digits.
fn read_number(s: &[char], base: u32) -> (r: Option<u32>)
    requires
        s@.len() <= 4,
        2 <= base <= 16,
    ensures
        match r {
            Some(v) => number(s@, base as int) == Some(v as int),
            None => number(s@, base as int) is None,
        },
        r matches Some(v) ==> v < 65536,
{
    let n: usize = s.len();
    let mut v: u32 = 0;
    let mut i: usize = 0;
    let mut bound: u32 = 1;
    while i < n
        invariant
            i <= n,
            n == s@.len(),
            n <= 4,
            2 <= base <= 16,
            number(s@.take(i as int), base as int) == Some(v as int),
            v < bound,
            i == 0 ==> bound == 1,
            i == 1 ==> bound == 16,
            i == 2 ==> bound == 256,
            i == 3 ==> bound == 4096,
            i == 4 ==> bound == 65536,
        decreases n - i,
    {
        let d: u32 = read_digit(s[i]);
        proof {
            assert(s@.take(i + 1).drop_last() =~= s@.take(i as int));
        }
        if d >= base {
            proof {
                lemma_number_fails(s@, base as int, i + 1);
            }
            return None;
        }
        proof {
            assert(v * base + d < bound * 16) by (nonlinear_arith)
                requires
                    0 <= v < bound,
                    2 <= base <= 16,
                    0 <= d < base,
            ;
        }
        assert(v * base <= v * 16) by (nonlinear_arith)
            requires
                base <= 16,
                v >= 0,
        ;
        v = v * base + d;
        bound = bound * 16;
        i += 1;
    }
    assert(s@.take(n as int) =~= s@);
    Some(v)
}

/// One octet of dotted notation: at most three digits, no leading zero.
pub open spec fn octet_of(s: Seq<char>) -> Option<u8> {
    if 1 <= s.len() <= 3 && !(s.len() > 1 && s[0] == '0') {
        match number(s, 10) {
            Some(v) if v < 256 => Some(v as u8),
            _ => None,
        }
    } else {
        None
    }
}

fn read_octet(s: &[char]) -> (r: Option<u8>)
    ensures
        r == octet_of(s@),
{
    let n: usize = s.len();
    if n < 1 || n > 3 || (n > 1 && s[0] == '0') {
        return None;
    }
    match read_number(s, 10) {
        Some(v) => {
            if v < 256 {
                Some(v as u8)
            } else {
                None
            }
        },
        None => None,
    }
}

/// The address that `s` writes as four decimal octets with dots between.
pub open spec fn ipv4_of(s: Seq<char>) -> Option<Ipv4Addr> {
    let p = text::split_at_each(s, '.');
    if p.len() == 4 && octet_of(p[0]) is Some && octet_of(p[1]) is Some && octet_of(p[2]) is Some
        && octet_of(p[3]) is Some {
        Some(
            Ipv4Addr {
                a: octet_of(p[0])->0,
                b: octet_of(p[1])->0,
                c: octet_of(p[2])->0,
                d: octet_of(p[3])->0,
            },
        )
    } else {
        None
    }
}

pub fn parse_ipv4(s: &[char]) -> (r: Option<Ipv4Addr>)
    ensures
        r == ipv4_of(s@),
{
    let p: Vec<Vec<char>> = split_chars(s, '.');
    let ghost parts = text::split_at_each(s@, '.');
    assert(text::views(p@).len() == p@.len());
    if p.len() != 4 {
        return None;
    }
    assert(parts[0] == p@[0]@ && parts[1] == p@[1]@ && parts[2] == p@[2]@ && parts[3] == p@[3]@);
    let a: Option<u8> = read_octet(p[0].as_slice());
    let b: Option<u8> = read_octet(p[1].as_slice());
    let c: Option<u8> = read_octet(p[2].as_slice());
    let d: Option<u8> = read_octet(p[3].as_slice());
    match (a, b, c, d) {
        (Some(a), Some(b), Some(c), Some(d)) => Some(Ipv4Addr { a, b, c, d }),
        _ => None,
    }
}

/// One group of colon notation: at most four hexadecimal digits.
pub open spec fn hextet_of(s: Seq<char>) -> Option<u16> {
    if 1 <= s.len() <= 4 {
        match number(s, 16) {
            Some(v) => Some(v as u16),
            None => None,
        }
    } else {
        None
    }
}

fn read_hextet(s: &[char]) -> (r: Option<u16>)
    ensures
        r == hextet_of(s@),
{
    let n: usize = s.len();
    if n < 1 || n > 4 {
        return None;
    }
    match read_number(s, 16) {
        Some(v) => Some(v as u16),
        None => None,
    }
}

/// The groups that the parts write, if each is one.
pub open spec fn plain(p: Seq<Seq<char>>) -> Option<Seq<u16>>
    decreases p.len(),
{
    if p.len() == 0 {
        Some(seq![])
    } else {
        match (plain(p.drop_last()), hextet_of(p.last())) {
            (Some(g), Some(v)) => Some(g.push(v)),
            _ => None,
        }
    }
}

proof fn lemma_plain_fails(p: Seq<Seq<char>>, i: int)
    requires
        0 <= i <= p.len(),
        plain(p.take(i)) is None,
    ensures
        plain(p) is None,
    decreases p.len() - i,
{
    if i < p.len() {
        assert(p.take(i + 1).drop_last() =~= p.take(i));
        lemma_plain_fails(p, i + 1);
    } else {
        assert(p.take(i) =~= p);
    }
}

fn read_plain(p: &Vec<Vec<char>>, n: usize) -> (r: Option<Vec<u16>>)
    requires
        n <= p@.len(),
    ensures
        match r {
            Some(g) => plain(text::views(p@).take(n as int)) == Some(g@),
            None => plain(text::views(p@).take(n as int)) is None,
        },
{
    let mut g: Vec<u16> = Vec::new();
    let mut i: usize = 0;
    let ghost parts = text::views(p@);
    assert(parts.take(0) =~= seq![]);
    assert(g@ =~= seq![]);
    while i < n
        invariant
            i <= n <= p@.len(),
            parts == text::views(p@),
            plain(parts.take(i as int)) == Some(g@),
        decreases n - i,
    {
        proof {
            assert(parts.take(i + 1).drop_last() =~= parts.take(i as int));
            assert(parts.take(i + 1).last() == p@[i as int]@);
        }
        match read_hextet(p[i].as_slice()) {
            Some(v) => {
                g.push(v);
            },
            None => {
                proof {
                    assert(parts.take(n as int).take(i + 1) =~= parts.take(i + 1));
                    lemma_plain_fails(parts.take(n as int), i + 1);
                }
                return None;
            },
        }
        i += 1;
    }
    Some(g)
}

/// The groups before an elision: none, or plain ones with colons between.
pub open spec fn head_groups(s: Seq<char>) -> Option<Seq<u16>> {
    if s.len() == 0 {
        Some(seq![])
    } else {
        plain(text::split_at_each(s, ':'))
    }
}

/// The groups at the end of an address: as before an elision, or with the last
/// two written as an IPv4 address.
pub open spec fn tail_groups(s: Seq<char>) -> Option<Seq<u16>> {
    if s.len() == 0 {
        Some(seq![])
    } else {
        let p = text::split_at_each(s, ':');
        match plain(p.drop_last()) {
            Some(g) => match hextet_of(p.last()) {
                Some(v) => Some(g.push(v)),
                None => match ipv4_of(p.last()) {
                    Some(a) => Some(g + seq![joined(a.a, a.b), joined(a.c, a.d)]),
                    None => None,
                },
            },
            None => None,
        }
    }
}

/// Two octets as one group.
pub open spec fn joined(high: u8, low: u8) -> u16 {
    (high * 256 + low) as u16
}

fn read_head(s: &[char]) -> (r: Option<Vec<u16>>)
    ensures
        match r {
            Some(g) => head_groups(s@) == Some(g@),
            None => head_groups(s@) is None,
        },
{
    if s.len() == 0 {
        let g: Vec<u16> = Vec::new();
        assert(g@ =~= seq![]);
        return Some(g);
    }
    let p: Vec<Vec<char>> = split_chars(s, ':');
    let n: usize = p.len();
    assert(text::views(p@).take(n as int) =~= text::views(p@));
    read_plain(&p, n)
}

fn read_tail(s: &[char]) -> (r: Option<Vec<u16>>)
    ensures
        match r {
            Some(g) => tail_groups(s@) == Some(g@),
            None => tail_groups(s@) is None,
        },
{
    if s.len() == 0 {
        let g: Vec<u16> = Vec::new();
        assert(g@ =~= seq![]);
        return Some(g);
    }
    let p: Vec<Vec<char>> = split_chars(s, ':');
    let n: usize = p.len();
    proof {
        assert(text::views(p@).take(n - 1) =~= text::views(p@).drop_last());
        assert(text::views(p@).last() == p@[n - 1]@);
    }
    match read_plain(&p, n - 1) {
        Some(mut g) => match read_hextet(p[n - 1].as_slice()) {
            Some(v) => {
                g.push(v);
                Some(g)
            },
            None => match parse_ipv4(p[n - 1].as_slice()) {
                Some(a) => {
                    let ghost before = g@;
                    g.push(a.a as u16 * 256 + a.b as u16);
                    g.push(a.c as u16 * 256 + a.d as u16);
                    assert(g@ =~= before + seq![joined(a.a, a.b), joined(a.c, a.d)]);
                    Some(g)
                },
                None => None,
            },
        },
        None => None,
    }
}

/// Where the first `::` of `s` stands.
pub open spec fn elision(s: Seq<char>) -> Option<int>
    decreases s.len(),
{
    if s.len() < 2 {
        None
    } else if s[0] == ':' && s[1] == ':' {
        Some(0)
    } else {
        match elision(s.skip(1)) {
            Some(i) => Some(i + 1),
            None => None,
        }
    }
}

fn find_elision(s: &[char]) -> (r: Option<usize>)
    ensures
        match r {
            Some(i) => elision(s@) == Some(i as int) && i <= s@.len() - 2,
            None => elision(s@) is None,
        },
{
    let n: usize = s.len();
    if n < 2 {
        return None;
    }
    let mut i: usize = 0;
    assert(s@.skip(0) =~= s@);
    while i < n - 1
        invariant
            i <= n - 1,
            2 <= n,
            n == s@.len(),
            match elision(s@.skip(i as int)) {
                Some(k) => elision(s@) == Some(k + i),
                None => elision(s@) is None,
            },
        decreases n - i,
    {
        if s[i] == ':' && s[i + 1] == ':' {
            return Some(i);
        }
        assert(s@.skip(i as int).skip(1) =~= s@.skip(i + 1));
        i += 1;
    }
    None
}

/// The address of eight groups.
pub open spec fn of_groups(g: Seq<u16>) -> Ipv6Addr {
    Ipv6Addr { a: g[0], b: g[1], c: g[2], d: g[3], e: g[4], f: g[5], g: g[6], h: g[7] }
}

/// `n` groups of zero.
pub open spec fn zeros(n: int) -> Seq<u16> {
    Seq::new(n as nat, |i: int| 0u16)
}

/// The address that `s` writes in colon notation: eight groups, or fewer with
/// one elision that stands for at least one group of zero.
pub open spec fn ipv6_of(s: Seq<char>) -> Option<Ipv6Addr> {
    match elision(s) {
        None => match tail_groups(s) {
            Some(g) if g.len() == 8 => Some(of_groups(g)),
            _ => None,
        },
        Some(i) => match (head_groups(s.take(i)), tail_groups(s.skip(i + 2))) {
            (Some(h), Some(t)) if h.len() + t.len() <= 7 => Some(
                of_groups(h + zeros(8 - h.len() - t.len()) + t),
            ),
            _ => None,
        },
    }
}

fn from_groups(g: &Vec<u16>) -> (r: Ipv6Addr)
    requires
        g@.len() == 8,
    ensures
        r == of_groups(g@),
{
    Ipv6Addr { a: g[0], b: g[1], c: g[2], d: g[3], e: g[4], f: g[5], g: g[6], h: g[7] }
}

pub fn parse_ipv6(s: &[char]) -> (r: Option<Ipv6Addr>)
    ensures
        r == ipv6_of(s@),
{
    let n: usize = s.len();
    match find_elision(s) {
        None => match read_tail(s) {
            Some(g) => {
                if g.len() == 8 {
                    Some(from_groups(&g))
                } else {
                    None
                }
            },
            None => None,
        },
        Some(i) => {
            let before: &[char] = slice_subrange(s, 0, i);
            let after: &[char] = slice_subrange(s, i + 2, n);
            proof {
                assert(before@ =~= s@.take(i as int));
                assert(after@ =~= s@.skip(i + 2));
            }
            match (read_head(before), read_tail(after)) {
                (Some(h), Some(t)) => {
                    if h.len() > 7 || t.len() > 7 || h.len() + t.len() > 7 {
                        return None;
                    }
                    let mut g: Vec<u16> = h;
                    let ghost head = g@;
                    let fill: usize = 8 - t.len();
                    while g.len() < fill
                        invariant
                            fill == 8 - t@.len(),
                            head.len() + t@.len() <= 7,
                            head.len() <= g@.len() <= fill,
                            g@ == head + zeros(g@.len() - head.len()),
                        decreases fill - g@.len(),
                    {
                        g.push(0);
                        assert(g@ =~= head + zeros(g@.len() - head.len()));
                    }
                    let mut k: usize = 0;
                    let ghost filled = g@;
                    let m: usize = t.len();
                    while k < m
                        invariant
                            k <= m,
                            m == t@.len(),
                            g@ == filled + t@.take(k as int),
                        decreases m - k,
                    {
                        g.push(t[k]);
                        proof {
                            assert(t@.take(k + 1) =~= t@.take(k as int).push(t@[k as int]));
                            assert(g@ =~= filled + t@.take(k + 1));
                        }
                        k += 1;
                    }
                    assert(t@.take(m as int) =~= t@);
                    Some(from_groups(&g))
                },
                _ => None,
            }
        },
    }
}

/// The address that `s` writes, in either notation.
pub open spec fn address_of(s: Seq<char>) -> Option<IpAddr> {
    match ipv4_of(s) {
        Some(a) => Some(IpAddr::V4(a)),
        None => match ipv6_of(s) {
            Some(a) => Some(IpAddr::V6(a)),
            None => None,
        },
    }
}

pub fn parse_address(s: &[char]) -> (r: Option<IpAddr>)
    ensures
        r == address_of(s@),
{
    match parse_ipv4(s) {
        Some(a) => Some(IpAddr::V4(a)),
        None => match parse_ipv6(s) {
            Some(a) => Some(IpAddr::V6(a)),
            None => None,
        },
    }
}

/// Dotted notation.
pub open spec fn ipv4_text(a: Ipv4Addr) -> Seq<char> {
    text::decimal(a.a as nat) + "."@ + text::decimal(a.b as nat) + "."@ + text::decimal(a.c as nat)
        + "."@ + text::decimal(a.d as nat)
}

fn push_ipv4(into: &mut String, a: Ipv4Addr)
    ensures
        final(into)@ == old(into)@ + ipv4_text(a),
{
    push_decimal(into, a.a as u64);
    push_text(into, ".");
    push_decimal(into, a.b as u64);
    push_text(into, ".");
    push_decimal(into, a.c as u64);
    push_text(into, ".");
    push_decimal(into, a.d as u64);
    assert(into@ =~= old(into)@ + ipv4_text(a));
}

/// The hexadecimal digit standing for `d`.
pub open spec fn hex_char(d: int) -> char {
    if d < 10 {
        (48 + d) as char
    } else {
        (87 + d) as char
    }
}

/// `n` in hexadecimal, in lower case, without leading zeros.
pub open spec fn hex(n: int) -> Seq<char>
    decreases n,
{
    if n < 16 {
        seq![hex_char(n)]
    } else {
        hex(n / 16).push(hex_char(n % 16))
    }
}

fn push_hex(into: &mut String, n: u16)
    ensures
        final(into)@ == old(into)@ + hex(n as int),
    decreases n,
{
    if n >= 16 {
        push_hex(into, n / 16);
    }
    let d: u8 = (n % 16) as u8;
    let c: char = if d < 10 {
        (48 + d) as char
    } else {
        (87 + d) as char
    };
    push_char(into, c);
    assert(into@ =~= old(into)@ + hex(n as int));
}

/// The groups in hexadecimal with colons between.
pub open spec fn colon_text(g: Seq<u16>) -> Seq<char>
    decreases g.len(),
{
    if g.len() == 0 {
        seq![]
    } else if g.len() == 1 {
        hex(g[0] as int)
    } else {
        colon_text(g.drop_last()) + ":"@ + hex(g.last() as int)
    }
}

fn push_groups(into: &mut String, g: &[u16])
    ensures
        final(into)@ == old(into)@ + colon_text(g@),
{
    let n: usize = g.len();
    let mut i: usize = 0;
    let ghost before = into@;
    assert(into@ =~= before + colon_text(g@.take(0)));
    while i < n
        invariant
            i <= n,
            n == g@.len(),
            into@ == before + colon_text(g@.take(i as int)),
        decreases n - i,
    {
        if i > 0 {
            push_text(into, ":");
        }
        push_hex(into, g[i]);
        proof {
            assert(g@.take(i + 1).drop_last() =~= g@.take(i as int));
            assert(into@ =~= before + colon_text(g@.take(i + 1)));
        }
        i += 1;
    }
    assert(g@.take(n as int) =~= g@);
}

/// How many groups of zero stand from `i` on.
pub open spec fn zero_run(g: Seq<u16>, i: int) -> int
    decreases g.len() - i,
{
    if 0 <= i < g.len() && g[i] == 0 {
        1 + zero_run(g, i + 1)
    } else {
        0
    }
}

pub proof fn lemma_zero_run(g: Seq<u16>, i: int)
    requires
        0 <= i <= g.len(),
    ensures
        0 <= zero_run(g, i) <= g.len() - i,
    decreases g.len() - i,
{
    if i < g.len() {
        lemma_zero_run(g, i + 1);
    }
}

/// The first of the longest runs of zero that start before `n`: where it
/// starts, and its length.
pub open spec fn longest_run(g: Seq<u16>, n: int) -> (int, int)
    decreases n,
{
    if n <= 0 {
        (0, 0)
    } else {
        let (at, len) = longest_run(g, n - 1);
        if zero_run(g, n - 1) > len {
            (n - 1, zero_run(g, n - 1))
        } else {
            (at, len)
        }
    }
}

/// The notation of RFC 5952: the first longest run of two or more groups of
/// zero is elided, and an IPv4-mapped address ends in dotted notation.
pub open spec fn ipv6_text(a: Ipv6Addr) -> Seq<char> {
    let g = a.groups();
    let (at, len) = longest_run(g, 8);
    if is_mapped(a) {
        "::ffff:"@ + ipv4_text(mapped(a))
    } else if len > 1 {
        colon_text(g.take(at)) + "::"@ + colon_text(g.skip(at + len))
    } else {
        colon_text(g)
    }
}

/// Whether the address stands for an IPv4 one, as `::ffff:a.b.c.d` does.
pub open spec fn is_mapped(a: Ipv6Addr) -> bool {
    a.a == 0 && a.b == 0 && a.c == 0 && a.d == 0 && a.e == 0 && a.f == 0xffff
}

/// The IPv4 address of the last two groups.
pub open spec fn mapped(a: Ipv6Addr) -> Ipv4Addr {
    Ipv4Addr {
        a: (a.g / 256) as u8,
        b: (a.g % 256) as u8,
        c: (a.h / 256) as u8,
        d: (a.h % 256) as u8,
    }
}

fn run_from(g: &[u16], i: usize) -> (r: usize)
    requires
        i <= g@.len(),
    ensures
        r == zero_run(g@, i as int),
        r <= g@.len() - i,
{
    let n: usize = g.len();
    let mut k: usize = i;
    while k < n && g[k] == 0
        invariant
            i <= k <= n,
            n == g@.len(),
            k - i + zero_run(g@, k as int) == zero_run(g@, i as int),
        decreases n - k,
    {
        k += 1;
    }
    k - i
}

fn push_ipv6(into: &mut String, a: Ipv6Addr)
    ensures
        final(into)@ == old(into)@ + ipv6_text(a),
{
    let array: [u16; 8] = [a.a, a.b, a.c, a.d, a.e, a.f, a.g, a.h];
    let g: &[u16] = array.as_slice();
    assert(g@ =~= a.groups());
    if a.a == 0 && a.b == 0 && a.c == 0 && a.d == 0 && a.e == 0 && a.f == 0xffff {
        push_text(into, "::ffff:");
        push_ipv4(
            into,
            Ipv4Addr {
                a: (a.g / 256) as u8,
                b: (a.g % 256) as u8,
                c: (a.h / 256) as u8,
                d: (a.h % 256) as u8,
            },
        );
        assert(into@ =~= old(into)@ + ipv6_text(a));
        return;
    }
    let mut at: usize = 0;
    let mut len: usize = 0;
    let mut i: usize = 0;
    while i < 8
        invariant
            i <= 8,
            g@.len() == 8,
            longest_run(g@, i as int) == (at as int, len as int),
            at + len <= 8,
        decreases 8 - i,
    {
        let run: usize = run_from(g, i);
        if run > len {
            at = i;
            len = run;
        }
        i += 1;
    }
    if len > 1 {
        let head: &[u16] = slice_subrange(g, 0, at);
        let tail: &[u16] = slice_subrange(g, at + len, 8);
        push_groups(into, head);
        push_text(into, "::");
        push_groups(into, tail);
        proof {
            assert(head@ =~= g@.take(at as int));
            assert(tail@ =~= g@.skip(at + len));
            assert(into@ =~= old(into)@ + ipv6_text(a));
        }
    } else {
        push_groups(into, g);
    }
}

/// An address and a port, the address in brackets where it holds colons.
pub open spec fn endpoint_text(a: IpAddr, port: u16) -> Seq<char> {
    match a {
        IpAddr::V4(a) => ipv4_text(a) + ":"@ + text::decimal(port as nat),
        IpAddr::V6(a) => "["@ + ipv6_text(a) + "]:"@ + text::decimal(port as nat),
    }
}

pub fn push_endpoint(into: &mut String, a: IpAddr, port: u16)
    ensures
        final(into)@ == old(into)@ + endpoint_text(a, port),
{
    match a {
        IpAddr::V4(a) => {
            push_ipv4(into, a);
            push_text(into, ":");
        },
        IpAddr::V6(a) => {
            push_text(into, "[");
            push_ipv6(into, a);
            push_text(into, "]:");
        },
    }
    push_decimal(into, port as u64);
    assert(into@ =~= old(into)@ + endpoint_text(a, port));
}

/// `0.0.0.0` or `::`.
pub open spec fn is_unspecified(a: IpAddr) -> bool {
    match a {
        IpAddr::V4(a) => a.bytes() == seq![0u8, 0, 0, 0],
        IpAddr::V6(a) => a == of_groups(zeros(8)),
    }
}

/// `127.0.0.0/8` or `::1`.
pub open spec fn is_loopback(a: IpAddr) -> bool {
    match a {
        IpAddr::V4(a) => a.a == 127,
        IpAddr::V6(a) => a == of_groups(zeros(7).push(1)),
    }
}

/// Whether nothing beyond this host answers at the address.
pub fn is_sink(a: IpAddr) -> (r: bool)
    ensures
        r == (is_unspecified(a) || is_loopback(a)),
{
    match a {
        IpAddr::V4(x) => {
            proof {
                if x.a == 0 && x.b == 0 && x.c == 0 && x.d == 0 {
                    assert(x.bytes() =~= seq![0u8, 0, 0, 0]);
                } else {
                    assert(x.bytes()[0] == x.a && x.bytes()[1] == x.b && x.bytes()[2] == x.c
                        && x.bytes()[3] == x.d);
                }
            }
            x.a == 127 || (x.a == 0 && x.b == 0 && x.c == 0 && x.d == 0)
        },
        IpAddr::V6(x) => x.a == 0 && x.b == 0 && x.c == 0 && x.d == 0 && x.e == 0 && x.f == 0
            && x.g == 0 && x.h <= 1,
    }
}

proof fn lemma_decimal_number(n: nat)
    ensures
        number(text::decimal(n), 10) == Some(n as int),
    decreases n,
{
    if n < 10 {
        let d = text::digit_char(n);
        assert(d as u32 == 48 + n);
        assert(text::decimal(n).drop_last() =~= seq![]);
        assert(number(text::decimal(n).drop_last(), 10) == Some(0int));
        assert(digit_value(d) == n);
    } else {
        lemma_decimal_number(n / 10);
        let d = text::digit_char(n % 10);
        assert(d as u32 == 48 + n % 10);
        assert(text::decimal(n).drop_last() =~= text::decimal(n / 10));
        assert(digit_value(d) == n % 10);
    }
}

proof fn lemma_octet(n: u8)
    ensures
        octet_of(text::decimal(n as nat)) == Some(n),
        forall|c: char| !('0' <= c <= '9') ==> !(#[trigger] text::decimal(n as nat).contains(c)),
{
    let s = text::decimal(n as nat);
    text::decimals_write_their_number(n as nat);
    lemma_decimal_number(n as nat);
    assert forall|c: char| !('0' <= c <= '9') implies !(#[trigger] s.contains(c)) by {
        if s.contains(c) {
            let i = choose|i: int| 0 <= i < s.len() && s[i] == c;
            assert('0' <= s[i] <= '9');
        }
    }
}

/// An IPv4 address is read as it is written, in decimal octets with dots between,
/// and its text is that.
pub proof fn an_ipv4_address_is_read_as_written(a: u8, b: u8, c: u8, d: u8)
    ensures
        ({
            let s = text::decimal(a as nat) + seq!['.'] + text::decimal(b as nat) + seq!['.'] + text::decimal(
                c as nat,
            ) + seq!['.'] + text::decimal(d as nat);
            &&& ipv4_of(s) == Some(Ipv4Addr { a, b, c, d })
            &&& address_of(s) == Some(IpAddr::V4(Ipv4Addr { a, b, c, d }))
            &&& ipv4_text(Ipv4Addr { a, b, c, d }) == s
        }),
{
    let p = text::decimal(a as nat);
    let q = text::decimal(b as nat);
    let r = text::decimal(c as nat);
    let t = text::decimal(d as nat);
    lemma_octet(a);
    lemma_octet(b);
    lemma_octet(c);
    lemma_octet(d);
    text::separators_part_a_text(p, p, '.');
    text::separators_part_a_text(p, q, '.');
    text::separators_part_a_text(p + seq!['.'] + q, r, '.');
    text::separators_part_a_text(p + seq!['.'] + q + seq!['.'] + r, t, '.');
    let s = p + seq!['.'] + q + seq!['.'] + r + seq!['.'] + t;
    let parts = text::split_at_each(s, '.');
    assert(parts =~= seq![p, q, r, t]);
    reveal_strlit(".");
    assert("."@ =~= seq!['.']);
    assert(ipv4_text(Ipv4Addr { a, b, c, d }) =~= s);
}

proof fn lemma_hex(n: int)
    requires
        0 <= n < 65536,
    ensures
        number(hex(n), 16) == Some(n),
        forall|i: int| 0 <= i < hex(n).len() ==> ('0' <= #[trigger] hex(n)[i] <= '9') || ('a' <= hex(n)[i] <= 'f'),
        hex(n).len() >= 1,
        n < 16 ==> hex(n).len() <= 1,
        n < 256 ==> hex(n).len() <= 2,
        n < 4096 ==> hex(n).len() <= 3,
        hex(n).len() <= 4,
    decreases n,
{
    if n < 16 {
        assert(hex(n).drop_last() =~= seq![]);
        assert(number(hex(n).drop_last(), 16) == Some(0int));
        assert(digit_value(hex_char(n)) == n);
    } else {
        lemma_hex(n / 16);
        assert(hex(n).drop_last() =~= hex(n / 16));
        assert(digit_value(hex_char(n % 16)) == n % 16);
    }
}

/// The hexadecimal texts of groups.
spec fn hexes(g: Seq<u16>) -> Seq<Seq<char>> {
    Seq::new(g.len(), |i: int| hex(g[i] as int))
}

proof fn lemma_plain_hexes(g: Seq<u16>)
    ensures
        plain(hexes(g)) == Some(g),
    decreases g.len(),
{
    if g.len() == 0 {
        assert(g =~= seq![]);
    } else {
        lemma_plain_hexes(g.drop_last());
        assert(hexes(g).drop_last() =~= hexes(g.drop_last()));
        lemma_hex(g.last() as int);
        assert(hextet_of(hexes(g).last()) == Some(g.last()));
        assert(g.drop_last().push(g.last()) =~= g);
    }
}

/// Groups with colons between.
proof fn lemma_colon_text(g: Seq<u16>)
    requires
        g.len() > 0,
    ensures
        text::split_at_each(colon_text(g), ':') == hexes(g),
        colon_text(g).len() > 0,
        colon_text(g)[0] != ':',
        colon_text(g).last() != ':',
        forall|i: int| 0 <= i < colon_text(g).len() - 1 ==> !((#[trigger] colon_text(g)[i]) == ':' && colon_text(g)[i + 1]
            == ':'),
    decreases g.len(),
{
    reveal_strlit(":");
    assert(":"@ =~= seq![':']);
    let last = hex(g.last() as int);
    lemma_hex(g.last() as int);
    assert(!last.contains(':')) by {
        if last.contains(':') {
            let i = choose|i: int| 0 <= i < last.len() && last[i] == ':';
            assert('0' <= last[i] <= '9' || 'a' <= last[i] <= 'f');
        }
    }
    assert(last[0] != ':' && last[last.len() - 1] != ':');
    if g.len() == 1 {
        text::separators_part_a_text(last, last, ':');
        assert(hexes(g) =~= seq![last]);
        assert forall|i: int| 0 <= i < colon_text(g).len() - 1 implies !((#[trigger] colon_text(g)[i]) == ':'
            && colon_text(g)[i + 1] == ':') by {
            assert(last.contains(last[i]));
        }
    } else {
        let front = g.drop_last();
        lemma_colon_text(front);
        let x = colon_text(front);
        text::separators_part_a_text(x, last, ':');
        assert(colon_text(g) == x + seq![':'] + last);
        assert(hexes(front).push(last) =~= hexes(g));
        let s = colon_text(g);
        assert(s[0] == x[0]);
        assert(s.last() == last.last());
        assert forall|i: int| 0 <= i < s.len() - 1 implies !((#[trigger] s[i]) == ':' && s[i + 1] == ':') by {
            if i < x.len() - 1 {
                assert(s[i] == x[i] && s[i + 1] == x[i + 1]);
            } else if i == x.len() - 1 {
                assert(s[i] == x.last());
            } else if i == x.len() {
                assert(s[i + 1] == last[0]);
            } else {
                assert(s[i] == last[i - x.len() - 1]);
                assert(last.contains(last[i - x.len() - 1]));
            }
        }
    }
}

proof fn lemma_no_elision(s: Seq<char>)
    requires
        forall|i: int| 0 <= i < s.len() - 1 ==> !((#[trigger] s[i]) == ':' && s[i + 1] == ':'),
    ensures
        elision(s) is None,
    decreases s.len(),
{
    if s.len() >= 2 {
        assert(!(s[0] == ':' && s[0int + 1] == ':'));
        let t = s.skip(1);
        assert forall|i: int| 0 <= i < t.len() - 1 implies !((#[trigger] t[i]) == ':' && t[i + 1] == ':') by {
            assert(t[i] == s[i + 1] && t[i + 1] == s[(i + 1) + 1]);
        }
        lemma_no_elision(t);
    }
}

proof fn lemma_elision_at(s: Seq<char>, n: int)
    requires
        0 <= n <= s.len() - 2,
        s[n] == ':',
        s[n + 1] == ':',
        forall|i: int| 0 <= i < n ==> !((#[trigger] s[i]) == ':' && s[i + 1] == ':'),
    ensures
        elision(s) == Some(n),
    decreases n,
{
    if n > 0 {
        assert(!(s[0] == ':' && s[0int + 1] == ':'));
        let t = s.skip(1);
        assert forall|i: int| 0 <= i < n - 1 implies !((#[trigger] t[i]) == ':' && t[i + 1] == ':') by {
            assert(t[i] == s[i + 1] && t[i + 1] == s[(i + 1) + 1]);
        }
        lemma_elision_at(t, n - 1);
    }
}

proof fn lemma_tail_hexes(g: Seq<u16>)
    ensures
        tail_groups(colon_text(g)) == Some(g),
        head_groups(colon_text(g)) == Some(g),
{
    if g.len() == 0 {
        assert(g =~= seq![]);
    } else {
        lemma_colon_text(g);
        lemma_plain_hexes(g);
        lemma_plain_hexes(g.drop_last());
        assert(hexes(g).drop_last() =~= hexes(g.drop_last()));
        lemma_hex(g.last() as int);
        assert(hextet_of(hexes(g).last()) == Some(g.last()));
        assert(g.drop_last().push(g.last()) =~= g);
    }
}

proof fn lemma_not_ipv4(s: Seq<char>)
    requires
        s.contains(':'),
    ensures
        ipv4_of(s) is None,
{
    let p = text::split_at_each(s, '.');
    if ipv4_of(s) is Some {
        assert(p =~= seq![p[0], p[1], p[2], p[3]]);
        lemma_part_with(s, '.', ':');
        let k = choose|k: int| 0 <= k < p.len() && (#[trigger] p[k]).contains(':');
        assert(octet_of(p[k]) is Some);
        let i = choose|i: int| 0 <= i < p[k].len() && p[k][i] == ':';
        lemma_number_digits(p[k], 10, i);
    }
}

proof fn lemma_part_with(s: Seq<char>, sep: char, c: char)
    requires
        s.contains(c),
        c != sep,
    ensures
        exists|k: int|
            0 <= k < text::split_at_each(s, sep).len() && (#[trigger] text::split_at_each(s, sep)[k]).contains(c),
    decreases s.len(),
{
    text::lemma_until(s, sep);
    let n = text::until(s, sep) as int;
    let p = text::split_at_each(s, sep);
    let i = choose|i: int| 0 <= i < s.len() && s[i] == c;
    if n >= s.len() {
        assert(p[0].contains(c));
    } else if i < n {
        assert(s.take(n)[i] == c);
        assert(p[0] == s.take(n));
        assert(p[0].contains(c));
    } else {
        let rest = s.skip(n + 1);
        assert(rest[i - n - 1] == c);
        lemma_part_with(rest, sep, c);
        let q = text::split_at_each(rest, sep);
        let k = choose|k: int| 0 <= k < q.len() && (#[trigger] q[k]).contains(c);
        assert(p[k + 1] == q[k]);
    }
}

proof fn lemma_number_digits(s: Seq<char>, base: int, i: int)
    requires
        number(s, base) is Some,
        0 <= i < s.len(),
        base <= 16,
    ensures
        digit_value(s[i]) < base,
    decreases s.len(),
{
    if i < s.len() - 1 {
        lemma_number_digits(s.drop_last(), base, i);
        assert(s.drop_last()[i] == s[i]);
    }
}

/// An IPv6 address is read as it is written: eight groups in hexadecimal with
/// colons between; or fewer, before and behind one double colon, which stands for
/// all the groups of zero that are missing.
pub proof fn an_ipv6_address_is_read_as_written(g: Seq<u16>, h: Seq<u16>)
    ensures
        g.len() == 8 ==> ipv6_of(colon_text(g)) == Some(of_groups(g)) && address_of(colon_text(g)) == Some(
            IpAddr::V6(of_groups(g)),
        ),
        g.len() + h.len() <= 7 ==> {
            let s = colon_text(g) + seq![':', ':'] + colon_text(h);
            &&& ipv6_of(s) == Some(of_groups(g + zeros(8 - g.len() - h.len()) + h))
            &&& address_of(s) == Some(IpAddr::V6(of_groups(g + zeros(8 - g.len() - h.len()) + h)))
        },
{
    lemma_tail_hexes(g);
    lemma_tail_hexes(h);
    if g.len() == 8 {
        lemma_colon_text(g);
        lemma_no_elision(colon_text(g));
        reveal_strlit(":");
        assert(":"@ =~= seq![':']);
        let x = colon_text(g.drop_last());
        assert(colon_text(g)[x.len() as int] == ':');
        lemma_not_ipv4(colon_text(g));
    }
    if g.len() + h.len() <= 7 {
        let x = colon_text(g);
        let y = colon_text(h);
        let s = x + seq![':', ':'] + y;
        let n = x.len() as int;
        assert(s[n] == ':' && s[n + 1] == ':');
        if g.len() > 0 {
            lemma_colon_text(g);
        } else {
            assert(n == 0);
        }
        assert forall|i: int| 0 <= i < n implies !((#[trigger] s[i]) == ':' && s[i + 1] == ':') by {
            if i < n - 1 {
                assert(s[i] == x[i] && s[i + 1] == x[i + 1]);
            } else {
                assert(s[i] == x.last());
            }
        }
        lemma_elision_at(s, n);
        assert(s.take(n) =~= x);
        assert(s.skip(n + 2) =~= y);
        assert(s.contains(':'));
        lemma_not_ipv4(s);
    }
}

proof fn lemma_ffff()
    ensures
        plain(seq![seq!['f', 'f', 'f', 'f']]) == Some(seq![0xffffu16]),
{
    let f = seq!['f', 'f', 'f', 'f'];
    assert(f.drop_last() =~= seq!['f', 'f', 'f']);
    assert(seq!['f', 'f', 'f'].drop_last() =~= seq!['f', 'f']);
    assert(seq!['f', 'f'].drop_last() =~= seq!['f']);
    assert(seq!['f'].drop_last() =~= seq![]);
    assert(number(seq![], 16) == Some(0int));
    assert(number(seq!['f'], 16) == Some(15int));
    assert(number(seq!['f', 'f'], 16) == Some(255int));
    assert(number(seq!['f', 'f', 'f'], 16) == Some(4095int));
    assert(number(f, 16) == Some(0xffffint));
    assert(hextet_of(f) == Some(0xffffu16));
    assert(seq![f].drop_last() =~= seq![]);
    assert(plain(seq![]) == Some(Seq::<u16>::empty()));
    assert(Seq::<u16>::empty().push(0xffffu16) =~= seq![0xffffu16]);
}

proof fn lemma_mapped_tail(m: Ipv4Addr)
    ensures
        tail_groups(seq!['f', 'f', 'f', 'f'] + seq![':'] + ipv4_text(m)) == Some(
            seq![0xffffu16] + seq![joined(m.a, m.b), joined(m.c, m.d)],
        ),
{
    let t = ipv4_text(m);
    let f = seq!['f', 'f', 'f', 'f'];
    let rest = f + seq![':'] + t;
    an_ipv4_address_is_read_as_written(m.a, m.b, m.c, m.d);
    lemma_ipv4_text_chars(m);
    text::separators_part_a_text(f, f, ':');
    text::separators_part_a_text(f, t, ':');
    let p = text::split_at_each(rest, ':');
    assert(p =~= seq![f, t]);
    assert(p.drop_last() =~= seq![f]);
    lemma_ffff();
    text::decimals_write_their_number(m.a as nat);
    text::decimals_write_their_number(m.b as nat);
    text::decimals_write_their_number(m.c as nat);
    text::decimals_write_their_number(m.d as nat);
    assert(t.len() >= 7);
    assert(hextet_of(t) is None);
}

proof fn lemma_mapped_survives(b: Ipv6Addr)
    requires
        is_mapped(b),
    ensures
        address_of(ipv6_text(b)) == Some(IpAddr::V6(b)),
{
    let m = mapped(b);
    let t = ipv4_text(m);
    let s = ipv6_text(b);
    reveal_strlit("::ffff:");
    assert("::ffff:"@ =~= seq![':', ':', 'f', 'f', 'f', 'f', ':']);
    assert(s =~= seq![':', ':', 'f', 'f', 'f', 'f', ':'] + t);
    assert(s[0] == ':' && s[1] == ':');
    lemma_elision_at(s, 0);
    assert(s.skip(2) =~= seq!['f', 'f', 'f', 'f'] + seq![':'] + t);
    lemma_mapped_tail(m);
    let tail = seq![0xffffu16] + seq![joined(m.a, m.b), joined(m.c, m.d)];
    let h = Seq::<u16>::empty();
    assert(s.take(0) =~= seq![]);
    assert(head_groups(s.take(0)) == Some(h));
    let all = h + zeros(5) + tail;
    assert(all[0] == 0 && all[1] == 0 && all[2] == 0 && all[3] == 0 && all[4] == 0);
    assert(all[5] == 0xffff);
    assert(all[6] == joined(m.a, m.b) && all[7] == joined(m.c, m.d));
    assert(of_groups(all) == b);
    assert(s.contains(':'));
    lemma_not_ipv4(s);
}

/// Reading undoes writing: the text of an address is read as that address.
pub proof fn an_address_survives_its_text(a: Ipv4Addr, b: Ipv6Addr)
    ensures
        address_of(ipv4_text(a)) == Some(IpAddr::V4(a)),
        address_of(ipv6_text(b)) == Some(IpAddr::V6(b)),
{
    an_ipv4_address_is_read_as_written(a.a, a.b, a.c, a.d);
    let g = b.groups();
    let (at, len) = longest_run(g, 8);
    lemma_longest_run(g, 8);
    if is_mapped(b) {
        lemma_mapped_survives(b);
    } else if len > 1 {
        let x = g.take(at);
        let y = g.skip(at + len);
        reveal_strlit("::");
        assert("::"@ =~= seq![':', ':']);
        an_ipv6_address_is_read_as_written(x, y);
        let all = x + zeros(8 - x.len() - y.len()) + y;
        assert(all =~= g) by {
            assert forall|i: int| at <= i < at + len implies g[i] == 0 by {
                lemma_zero_run_zero(g, at, i);
            }
        }
        assert(of_groups(g) == b);
    } else {
        an_ipv6_address_is_read_as_written(g, seq![]);
        assert(of_groups(g) == b);
    }
}

proof fn lemma_ipv4_text_chars(a: Ipv4Addr)
    ensures
        !ipv4_text(a).contains(':'),
{
    reveal_strlit(".");
    assert("."@ =~= seq!['.']);
    lemma_octet(a.a);
    lemma_octet(a.b);
    lemma_octet(a.c);
    lemma_octet(a.d);
    let p = text::decimal(a.a as nat);
    let q = text::decimal(a.b as nat);
    let r = text::decimal(a.c as nat);
    let t = text::decimal(a.d as nat);
    let s = ipv4_text(a);
    if s.contains(':') {
        let i = choose|i: int| 0 <= i < s.len() && s[i] == ':';
        let b = p.len() as int + 1;
        let c = b + q.len() + 1;
        let d = c + r.len() + 1;
        if i < b - 1 {
            assert(p[i] == ':');
            assert(p.contains(':'));
        } else if b <= i < c - 1 {
            assert(q[i - b] == ':');
            assert(q.contains(':'));
        } else if c <= i < d - 1 {
            assert(r[i - c] == ':');
            assert(r.contains(':'));
        } else if d <= i {
            assert(t[i - d] == ':');
            assert(t.contains(':'));
        }
    }
}

proof fn lemma_zero_run_zero(g: Seq<u16>, from: int, i: int)
    requires
        0 <= from <= i < from + zero_run(g, from),
    ensures
        i < g.len(),
        g[i] == 0,
    decreases i - from,
{
    if from < i {
        lemma_zero_run_zero(g, from + 1, i);
    }
}

proof fn lemma_longest_run(g: Seq<u16>, n: int)
    requires
        0 <= n <= g.len(),
    ensures
        ({
            let (at, len) = longest_run(g, n);
            0 <= at && 0 <= len && at + len <= g.len() && (len > 0 ==> len == zero_run(g, at))
        }),
    decreases n,
{
    if n > 0 {
        lemma_longest_run(g, n - 1);
        lemma_zero_run(g, n - 1);
    }
}

/// No address starts with a character that is neither a hexadecimal digit nor a
/// colon.
pub proof fn an_address_starts_with_a_digit_or_a_colon(s: Seq<char>)
    requires
        address_of(s) is Some,
    ensures
        s.len() > 0,
        '0' <= s[0] <= '9' || 'a' <= s[0] <= 'f' || 'A' <= s[0] <= 'F' || s[0] == ':',
{
    if s.len() == 0 {
        assert(text::split_at_each(s, '.') =~= seq![s]);
    } else if !('0' <= s[0] <= '9' || 'a' <= s[0] <= 'f' || 'A' <= s[0] <= 'F' || s[0] == ':') {
        lemma_bad_ipv4(s);
        lemma_bad_groups(s);
        match elision(s) {
            None => {},
            Some(i) => {
                lemma_elision_is(s);
                let x = s.take(i);
                assert(x[0] == s[0]);
                lemma_bad_groups(x);
            },
        }
    }
}

proof fn lemma_elision_is(s: Seq<char>)
    ensures
        elision(s) matches Some(i) ==> 0 <= i <= s.len() - 2 && s[i] == ':',
    decreases s.len(),
{
    if s.len() >= 2 && !(s[0] == ':' && s[1] == ':') {
        lemma_elision_is(s.skip(1));
    }
}

proof fn lemma_bad_ipv4(s: Seq<char>)
    requires
        s.len() > 0,
        digit_value(s[0]) == 99,
    ensures
        ipv4_of(s) is None,
{
    if s[0] == '.' {
        let p = text::split_at_each(s, '.');
        assert(p[0].len() == 0);
    } else {
        lemma_first_part(s, '.');
        let p = text::split_at_each(s, '.');
        if octet_of(p[0]) is Some {
            lemma_number_digits(p[0], 10, 0);
        }
    }
}

proof fn lemma_first_part(s: Seq<char>, sep: char)
    requires
        s.len() > 0,
        s[0] != sep,
    ensures
        text::split_at_each(s, sep).len() > 0,
        text::split_at_each(s, sep)[0].len() > 0,
        text::split_at_each(s, sep)[0][0] == s[0],
        text::split_at_each(s, sep).len() == 1 ==> text::split_at_each(s, sep)[0] == s,
{
    text::lemma_until(s, sep);
    let n = text::until(s, sep) as int;
    assert(n > 0);
    if n < s.len() {
        let rest = text::split_at_each(s.skip(n + 1), sep);
        assert(text::split_at_each(s, sep) == seq![s.take(n)] + rest);
        assert(rest.len() > 0);
    }
}

proof fn lemma_bad_groups(s: Seq<char>)
    requires
        s.len() > 0,
        s[0] != ':',
        digit_value(s[0]) == 99,
    ensures
        head_groups(s) is None,
        tail_groups(s) is None,
{
    lemma_first_part(s, ':');
    lemma_bad_ipv4(s);
    let p = text::split_at_each(s, ':');
    assert(hextet_of(p[0]) is None) by {
        if hextet_of(p[0]) is Some {
            lemma_number_digits(p[0], 16, 0);
        }
    }
    lemma_plain_needs_first(p);
    if p.len() > 1 {
        lemma_plain_needs_first(p.drop_last());
    }
}

proof fn lemma_plain_needs_first(p: Seq<Seq<char>>)
    requires
        p.len() > 0,
        hextet_of(p[0]) is None,
    ensures
        plain(p) is None,
    decreases p.len(),
{
    if p.len() > 1 {
        lemma_plain_needs_first(p.drop_last());
    }
}

/// The addresses where nothing beyond this host answers: `0.0.0.0`, everything that
/// starts with 127, `::` and `::1`.
pub proof fn four_kinds_of_address_are_sinks(address: IpAddr, r: bool)
    requires
        r == (is_unspecified(address) || is_loopback(address)),
    ensures
        address matches IpAddr::V4(a) ==> (r <==> a.a == 127 || (a.a == 0 && a.b == 0 && a.c == 0 && a.d == 0)),
        address matches IpAddr::V6(a) ==> (r <==> a.a == 0 && a.b == 0 && a.c == 0 && a.d == 0 && a.e == 0 && a.f == 0
            && a.g == 0 && a.h <= 1),
{
    match address {
        IpAddr::V4(x) => {
            assert(x.bytes()[0] == x.a && x.bytes()[1] == x.b && x.bytes()[2] == x.c && x.bytes()[3] == x.d);
            if x.a == 0 && x.b == 0 && x.c == 0 && x.d == 0 {
                assert(x.bytes() =~= seq![0u8, 0, 0, 0]);
            }
        },
        IpAddr::V6(x) => {
            let z = zeros(8);
            let o = zeros(7).push(1u16);
            assert(of_groups(z).h == 0 && of_groups(o).h == 1);
        },
    }
}

} // verus!
