//! Variable-length integers as QUIC writes them: the two high bits of the
//! first byte give the length.

use vstd::prelude::*;
use vstd::slice::slice_subrange;

verus! {

/// One more than the largest integer that has an encoding.
pub const LIMIT: u64 = 0x4000_0000_0000_0000;

/// `v` in its shortest encoding.
pub open spec fn encoding(v: u64) -> Seq<u8> {
    if v < 64 {
        seq![v as u8]
    } else if v < 16384 {
        seq![(64 + v / 256) as u8, (v % 256) as u8]
    } else if v < 0x4000_0000 {
        seq![
            (128 + v / 0x100_0000) as u8,
            (v / 0x1_0000 % 256) as u8,
            (v / 256 % 256) as u8,
            (v % 256) as u8,
        ]
    } else {
        seq![
            (192 + v / 0x100_0000_0000_0000) as u8,
            (v / 0x1_0000_0000_0000 % 256) as u8,
            (v / 0x100_0000_0000 % 256) as u8,
            (v / 0x1_0000_0000 % 256) as u8,
            (v / 0x100_0000 % 256) as u8,
            (v / 0x1_0000 % 256) as u8,
            (v / 256 % 256) as u8,
            (v % 256) as u8,
        ]
    }
}

/// How many bytes the encoding that starts with `first` has.
pub open spec fn width(first: u8) -> int {
    if first < 64 {
        1
    } else if first < 128 {
        2
    } else if first < 192 {
        4
    } else {
        8
    }
}

/// The integer that `s` starts with and the length of its encoding; `None`
/// where `s` ends before the encoding does.
pub open spec fn reading(s: Seq<u8>) -> Option<(u64, int)> {
    if s.len() == 0 || s.len() < width(s[0]) {
        None
    } else if s[0] < 64 {
        Some((s[0] as u64, 1))
    } else if s[0] < 128 {
        Some((((s[0] - 64) * 256 + s[1]) as u64, 2))
    } else if s[0] < 192 {
        Some((((s[0] - 128) * 0x100_0000 + s[1] * 0x1_0000 + s[2] * 256 + s[3]) as u64, 4))
    } else {
        Some(
            (
                ((s[0] - 192) * 0x100_0000_0000_0000 + s[1] * 0x1_0000_0000_0000 + s[2]
                    * 0x100_0000_0000 + s[3] * 0x1_0000_0000 + s[4] * 0x100_0000 + s[5] * 0x1_0000
                    + s[6] * 256 + s[7]) as u64,
                8,
            ),
        )
    }
}

/// Appends `v` in its shortest encoding.
pub fn put(v: u64, out: &mut Vec<u8>)
    requires
        v < LIMIT,
    ensures
        final(out)@ == old(out)@ + encoding(v),
{
    if v < 64 {
        out.push(v as u8);
    } else if v < 16384 {
        out.push((64 + v / 256) as u8);
        out.push((v % 256) as u8);
    } else if v < 0x4000_0000 {
        out.push((128 + v / 0x100_0000) as u8);
        out.push((v / 0x1_0000 % 256) as u8);
        out.push((v / 256 % 256) as u8);
        out.push((v % 256) as u8);
    } else {
        out.push((192 + v / 0x100_0000_0000_0000) as u8);
        out.push((v / 0x1_0000_0000_0000 % 256) as u8);
        out.push((v / 0x100_0000_0000 % 256) as u8);
        out.push((v / 0x1_0000_0000 % 256) as u8);
        out.push((v / 0x100_0000 % 256) as u8);
        out.push((v / 0x1_0000 % 256) as u8);
        out.push((v / 256 % 256) as u8);
        out.push((v % 256) as u8);
    }
    assert(out@ =~= old(out)@ + encoding(v));
}

/// Reads the integer that `bytes` starts with, and returns what follows.
pub fn get(bytes: &[u8]) -> (r: Option<(u64, &[u8])>)
    ensures
        match r {
            Some((v, rest)) => reading(bytes@) == Some((v, bytes@.len() - rest@.len())) && rest@
                == bytes@.skip(bytes@.len() - rest@.len()) && rest@.len() < bytes@.len(),
            None => reading(bytes@) is None,
        },
{
    let n: usize = bytes.len();
    if n == 0 {
        return None;
    }
    let first: u8 = bytes[0];
    let (v, used): (u64, usize) = if first < 64 {
        (first as u64, 1)
    } else if first < 128 {
        if n < 2 {
            return None;
        }
        ((first - 64) as u64 * 256 + bytes[1] as u64, 2)
    } else if first < 192 {
        if n < 4 {
            return None;
        }
        (
            (first - 128) as u64 * 0x100_0000 + bytes[1] as u64 * 0x1_0000 + bytes[2] as u64 * 256
                + bytes[3] as u64,
            4,
        )
    } else {
        if n < 8 {
            return None;
        }
        (
            (first - 192) as u64 * 0x100_0000_0000_0000 + bytes[1] as u64 * 0x1_0000_0000_0000
                + bytes[2] as u64 * 0x100_0000_0000 + bytes[3] as u64 * 0x1_0000_0000
                + bytes[4] as u64 * 0x100_0000 + bytes[5] as u64 * 0x1_0000 + bytes[6] as u64 * 256
                + bytes[7] as u64,
            8,
        )
    };
    let rest: &[u8] = slice_subrange(bytes, used, n);
    assert(rest@ =~= bytes@.skip(used as int));
    Some((v, rest))
}

/// The digits of `v` in base 256 add up to it.
proof fn lemma_digits(v: u64)
    ensures
        v == v / 0x100_0000_0000_0000 * 0x100_0000_0000_0000 + v / 0x1_0000_0000_0000 % 256
            * 0x1_0000_0000_0000 + v / 0x100_0000_0000 % 256 * 0x100_0000_0000 + v / 0x1_0000_0000
            % 256 * 0x1_0000_0000 + v / 0x100_0000 % 256 * 0x100_0000 + v / 0x1_0000 % 256
            * 0x1_0000 + v / 256 % 256 * 256 + v % 256,
{
    let a = v as int;
    let a1 = a / 256;
    let a2 = a1 / 256;
    let a3 = a2 / 256;
    let a4 = a3 / 256;
    let a5 = a4 / 256;
    let a6 = a5 / 256;
    let a7 = a6 / 256;
    assert(v / 256 == a1);
    assert(v / 0x1_0000 == a2);
    assert(v / 0x100_0000 == a3);
    assert(v / 0x1_0000_0000 == a4);
    assert(v / 0x100_0000_0000 == a5);
    assert(v / 0x1_0000_0000_0000 == a6);
    assert(v / 0x100_0000_0000_0000 == a7);
    assert(a6 == a7 * 256 + a6 % 256);
    assert(a5 == a6 * 256 + a5 % 256);
    assert(a4 == a5 * 256 + a4 % 256);
    assert(a3 == a4 * 256 + a3 % 256);
    assert(a2 == a3 * 256 + a2 % 256);
    assert(a1 == a2 * 256 + a1 % 256);
    assert(a == a1 * 256 + a % 256);
}

/// Reading gives back what was put, whatever follows it.
pub proof fn reading_undoes_putting(v: u64, rest: Seq<u8>)
    requires
        v < LIMIT,
    ensures
        reading(encoding(v) + rest) == Some((v, encoding(v).len() as int)),
{
    let s = encoding(v) + rest;
    assert forall|i: int| 0 <= i < encoding(v).len() implies s[i] == encoding(v)[i] by {}
    if v < 64 {
        assert(s[0] == v);
    } else if v < 16384 {
        assert(s[0] == 64 + v / 256 && s[1] == v % 256);
    } else if v < 0x4000_0000 {
        assert(s[0] == 128 + v / 0x100_0000);
        assert(s[1] == v / 0x1_0000 % 256);
        assert(s[2] == v / 256 % 256);
        assert(s[3] == v % 256);
    } else {
        lemma_digits(v);
        assert(v / 0x100_0000_0000_0000 < 64);
        assert(s[0] == 192 + v / 0x100_0000_0000_0000);
        assert(s[1] == v / 0x1_0000_0000_0000 % 256);
        assert(s[2] == v / 0x100_0000_0000 % 256);
        assert(s[3] == v / 0x1_0000_0000 % 256);
        assert(s[4] == v / 0x100_0000 % 256);
        assert(s[5] == v / 0x1_0000 % 256);
        assert(s[6] == v / 256 % 256);
        assert(s[7] == v % 256);
    }
}

/// A prefix either stops short of the encoding and reads as nothing, or reads
/// as the whole does.
pub proof fn a_prefix_reads_as_the_whole_or_not_at_all(s: Seq<u8>, cut: int)
    requires
        0 <= cut <= s.len(),
    ensures
        match reading(s) {
            Some((v, n)) => 1 <= n <= s.len() && v < LIMIT && reading(s.take(cut)) == (if cut < n {
                None
            } else {
                Some((v, n))
            }),
            None => reading(s.take(cut)) is None,
        },
{
}

/// The number that bytes write, most significant first.
pub open spec fn big_endian(s: Seq<u8>) -> int
    decreases s.len(),
{
    if s.len() == 0 {
        0
    } else {
        big_endian(s.drop_last()) * 256 + s.last()
    }
}

proof fn lemma_big_endian(s: Seq<u8>)
    ensures
        s.len() == 1 ==> big_endian(s) == s[0],
        s.len() == 2 ==> big_endian(s) == s[0] * 256 + s[1],
        s.len() == 4 ==> big_endian(s) == s[0] * 0x100_0000 + s[1] * 0x1_0000 + s[2] * 256 + s[3],
        s.len() == 8 ==> big_endian(s) == s[0] * 0x100_0000_0000_0000 + s[1] * 0x1_0000_0000_0000 + s[2]
            * 0x100_0000_0000 + s[3] * 0x1_0000_0000 + s[4] * 0x100_0000 + s[5] * 0x1_0000 + s[6] * 256 + s[7],
{
    if s.len() > 0 {
        lemma_big_endian_step(s, s.len() as int);
    }
}

proof fn lemma_big_endian_step(s: Seq<u8>, n: int)
    requires
        0 < n <= s.len(),
    ensures
        n >= 1 ==> big_endian(s.take(1)) == s[0],
        n >= 2 ==> big_endian(s.take(2)) == big_endian(s.take(1)) * 256 + s[1],
        n >= 3 ==> big_endian(s.take(3)) == big_endian(s.take(2)) * 256 + s[2],
        n >= 4 ==> big_endian(s.take(4)) == big_endian(s.take(3)) * 256 + s[3],
        n >= 5 ==> big_endian(s.take(5)) == big_endian(s.take(4)) * 256 + s[4],
        n >= 6 ==> big_endian(s.take(6)) == big_endian(s.take(5)) * 256 + s[5],
        n >= 7 ==> big_endian(s.take(7)) == big_endian(s.take(6)) * 256 + s[6],
        n >= 8 ==> big_endian(s.take(8)) == big_endian(s.take(7)) * 256 + s[7],
        n == s.len() ==> s.take(n) == s,
{
    assert(s.take(0) =~= Seq::<u8>::empty());
    assert(big_endian(s.take(0)) == 0);
    assert(s.take(1).drop_last() =~= s.take(0));
    if n >= 2 {
        assert(s.take(2).drop_last() =~= s.take(1));
    }
    if n >= 3 {
        assert(s.take(3).drop_last() =~= s.take(2));
    }
    if n >= 4 {
        assert(s.take(4).drop_last() =~= s.take(3));
    }
    if n >= 5 {
        assert(s.take(5).drop_last() =~= s.take(4));
    }
    if n >= 6 {
        assert(s.take(6).drop_last() =~= s.take(5));
    }
    if n >= 7 {
        assert(s.take(7).drop_last() =~= s.take(6));
    }
    if n >= 8 {
        assert(s.take(8).drop_last() =~= s.take(7));
    }
    if n == s.len() {
        assert(s.take(n) =~= s);
    }
}

/// How RFC 9000 writes integers: the two high bits of the first byte say that the
/// encoding has one, two, four or eight bytes, and the other bits of all bytes are the
/// integer, most significant first. The shortest encoding is put.
pub proof fn an_integer_is_its_low_bits_in_network_order(v: u64)
    requires
        v < 0x4000_0000_0000_0000,
    ensures
        ({
            let s = encoding(v);
            &&& v < 0x40 ==> s.len() == 1 && s[0] / 64 == 0 && big_endian(s) == v
            &&& 0x40 <= v < 0x4000 ==> s.len() == 2 && s[0] / 64 == 1 && big_endian(s) == v + 0x4000
            &&& 0x4000 <= v < 0x4000_0000 ==> s.len() == 4 && s[0] / 64 == 2 && big_endian(s) == v + 0x8000_0000
            &&& 0x4000_0000 <= v ==> s.len() == 8 && s[0] / 64 == 3 && big_endian(s) == v + 0xc000_0000_0000_0000
        }),
{
    lemma_big_endian(encoding(v));
    lemma_digits(v);
}

/// How integers are read, whatever their encoding: the length by the first two bits,
/// the value by all others; and nothing where bytes are missing.
pub proof fn an_integer_is_read_by_its_first_bits(s: Seq<u8>)
    ensures
        s.len() == 0 ==> reading(s) is None,
        s.len() >= 1 && s[0] / 64 == 0 ==> reading(s) is Some && reading(s)->0 == (s[0] as u64, 1int),
        s.len() >= 1 && s[0] / 64 == 1 ==> (reading(s) is Some <==> s.len() >= 2),
        s.len() >= 1 && s[0] / 64 == 2 ==> (reading(s) is Some <==> s.len() >= 4),
        s.len() >= 1 && s[0] / 64 == 3 ==> (reading(s) is Some <==> s.len() >= 8),
        s.len() >= 2 && s[0] / 64 == 1 ==> (reading(s) matches Some((v, n)) && n == 2 && v + 0x4000 == big_endian(
            s.take(2),
        )),
        s.len() >= 4 && s[0] / 64 == 2 ==> (reading(s) matches Some((v, n)) && n == 4 && v + 0x8000_0000 == big_endian(
            s.take(4),
        )),
        s.len() >= 8 && s[0] / 64 == 3 ==> (reading(s) matches Some((v, n)) && n == 8 && v + 0xc000_0000_0000_0000
            == big_endian(s.take(8))),
{
    if s.len() >= 2 {
        lemma_big_endian(s.take(2));
    }
    if s.len() >= 4 {
        lemma_big_endian(s.take(4));
    }
    if s.len() >= 8 {
        lemma_big_endian(s.take(8));
    }
}

} // verus!
