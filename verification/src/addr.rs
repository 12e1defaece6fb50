//! Network addresses as plain values.

use vstd::prelude::*;

verus! {

/// An IPv4 address, most significant octet first.
#[derive(Clone, Copy, Debug, PartialEq, Eq, Hash, PartialOrd, Ord, Structural)]
pub struct Ipv4Addr {
    pub a: u8,
    pub b: u8,
    pub c: u8,
    pub d: u8,
}

impl Ipv4Addr {
    pub fn new(a: u8, b: u8, c: u8, d: u8) -> (r: Self)
        ensures
            r == (Ipv4Addr { a, b, c, d }),
    {
        Ipv4Addr { a, b, c, d }
    }

    /// The four octets in network order.
    pub open spec fn bytes(self) -> Seq<u8> {
        seq![self.a, self.b, self.c, self.d]
    }

    pub fn octets(self) -> (o: [u8; 4])
        ensures
            o@ == self.bytes(),
    {
        let o: [u8; 4] = [self.a, self.b, self.c, self.d];
        assert(o@ =~= self.bytes());
        o
    }

    /// The address of four octets in network order.
    pub fn from_octets(o: [u8; 4]) -> (r: Self)
        ensures
            r.bytes() == o@,
    {
        let r = Ipv4Addr { a: o[0], b: o[1], c: o[2], d: o[3] };
        assert(r.bytes() =~= o@);
        r
    }
}

/// An IPv6 address, as its eight 16-bit groups, most significant first.
#[derive(Clone, Copy, Debug, PartialEq, Eq, Hash, PartialOrd, Ord, Structural)]
pub struct Ipv6Addr {
    pub a: u16,
    pub b: u16,
    pub c: u16,
    pub d: u16,
    pub e: u16,
    pub f: u16,
    pub g: u16,
    pub h: u16,
}

/// The high byte of a 16-bit group.
pub open spec fn high(v: u16) -> u8 {
    (v / 256) as u8
}

/// The low byte of a 16-bit group.
pub open spec fn low(v: u16) -> u8 {
    (v % 256) as u8
}

/// A 16-bit group from its two bytes.
pub open spec fn group(high: u8, low: u8) -> u16 {
    (high as u16 * 256 + low as u16) as u16
}

fn join(high: u8, low: u8) -> (v: u16)
    ensures
        v == group(high, low),
        v == high * 256 + low,
{
    high as u16 * 256 + low as u16
}

impl Ipv6Addr {
    pub fn new(a: u16, b: u16, c: u16, d: u16, e: u16, f: u16, g: u16, h: u16) -> (r: Self)
        ensures
            r == (Ipv6Addr { a, b, c, d, e, f, g, h }),
    {
        Ipv6Addr { a, b, c, d, e, f, g, h }
    }

    /// The eight groups, most significant first.
    pub open spec fn groups(self) -> Seq<u16> {
        seq![self.a, self.b, self.c, self.d, self.e, self.f, self.g, self.h]
    }

    /// The sixteen octets in network order.
    pub open spec fn bytes(self) -> Seq<u8> {
        seq![
            high(self.a),
            low(self.a),
            high(self.b),
            low(self.b),
            high(self.c),
            low(self.c),
            high(self.d),
            low(self.d),
            high(self.e),
            low(self.e),
            high(self.f),
            low(self.f),
            high(self.g),
            low(self.g),
            high(self.h),
            low(self.h),
        ]
    }

    pub fn octets(self) -> (o: [u8; 16])
        ensures
            o@ == self.bytes(),
    {
        let o: [u8; 16] = [
            (self.a / 256) as u8,
            (self.a % 256) as u8,
            (self.b / 256) as u8,
            (self.b % 256) as u8,
            (self.c / 256) as u8,
            (self.c % 256) as u8,
            (self.d / 256) as u8,
            (self.d % 256) as u8,
            (self.e / 256) as u8,
            (self.e % 256) as u8,
            (self.f / 256) as u8,
            (self.f % 256) as u8,
            (self.g / 256) as u8,
            (self.g % 256) as u8,
            (self.h / 256) as u8,
            (self.h % 256) as u8,
        ];
        assert(o@ =~= self.bytes());
        o
    }

    /// The address of sixteen octets in network order.
    pub fn from_octets(o: [u8; 16]) -> (r: Self)
        ensures
            r.bytes() == o@,
    {
        let r = Ipv6Addr {
            a: join(o[0], o[1]),
            b: join(o[2], o[3]),
            c: join(o[4], o[5]),
            d: join(o[6], o[7]),
            e: join(o[8], o[9]),
            f: join(o[10], o[11]),
            g: join(o[12], o[13]),
            h: join(o[14], o[15]),
        };
        assert(r.bytes() =~= o@);
        r
    }
}

/// An address of either family.
#[derive(Clone, Copy, Debug, PartialEq, Eq, Hash, PartialOrd, Ord, Structural)]
pub enum IpAddr {
    V4(Ipv4Addr),
    V6(Ipv6Addr),
}

impl IpAddr {
    /// The octets in network order.
    pub open spec fn bytes(self) -> Seq<u8> {
        match self {
            IpAddr::V4(a) => a.bytes(),
            IpAddr::V6(a) => a.bytes(),
        }
    }
}

/// Addresses with the same octets are the same address.
pub proof fn lemma_address_is_its_octets(a: IpAddr, b: IpAddr)
    requires
        a.bytes() == b.bytes(),
    ensures
        a == b,
{
    match (a, b) {
        (IpAddr::V4(x), IpAddr::V4(y)) => {
            assert(x.bytes()[0] == y.bytes()[0]);
            assert(x.bytes()[1] == y.bytes()[1]);
            assert(x.bytes()[2] == y.bytes()[2]);
            assert(x.bytes()[3] == y.bytes()[3]);
        },
        (IpAddr::V6(x), IpAddr::V6(y)) => {
            assert forall|i: int| 0 <= i < 16 implies x.bytes()[i] == y.bytes()[i] by {}
            assert(x.bytes()[0] == y.bytes()[0] && x.bytes()[1] == y.bytes()[1]);
            assert(x.bytes()[2] == y.bytes()[2] && x.bytes()[3] == y.bytes()[3]);
            assert(x.bytes()[4] == y.bytes()[4] && x.bytes()[5] == y.bytes()[5]);
            assert(x.bytes()[6] == y.bytes()[6] && x.bytes()[7] == y.bytes()[7]);
            assert(x.bytes()[8] == y.bytes()[8] && x.bytes()[9] == y.bytes()[9]);
            assert(x.bytes()[10] == y.bytes()[10] && x.bytes()[11] == y.bytes()[11]);
            assert(x.bytes()[12] == y.bytes()[12] && x.bytes()[13] == y.bytes()[13]);
            assert(x.bytes()[14] == y.bytes()[14] && x.bytes()[15] == y.bytes()[15]);
        },
        (IpAddr::V4(x), IpAddr::V6(y)) => {
            assert(x.bytes().len() == 4 && y.bytes().len() == 16);
        },
        (IpAddr::V6(x), IpAddr::V4(y)) => {
            assert(x.bytes().len() == 16 && y.bytes().len() == 4);
        },
    }
}

/// One end of a conversation on the client's side of the tunnel.
#[derive(Clone, Copy, Debug, PartialEq, Eq, Hash, PartialOrd, Ord, Structural)]
pub struct InternalEndpoint {
    pub address: IpAddr,
    pub port: u16,
}

/// An IPv6 address's octets are its groups, most significant byte first.
pub proof fn octets_are_groups_in_network_order(a: Ipv6Addr, i: int)
    requires
        0 <= i < 8,
    ensures
        a.bytes().len() == 16,
        a.groups()[i] == a.bytes()[2 * i] * 256 + a.bytes()[2 * i + 1],
{
    let g = a.groups();
    let b = a.bytes();
    assert(g[0] == b[0] * 256 + b[1] && g[1] == b[2] * 256 + b[3] && g[2] == b[4] * 256 + b[5]);
    assert(g[3] == b[6] * 256 + b[7] && g[4] == b[8] * 256 + b[9] && g[5] == b[10] * 256 + b[11]);
    assert(g[6] == b[12] * 256 + b[13] && g[7] == b[14] * 256 + b[15]);
}

} // verus!
