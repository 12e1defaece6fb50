//! Reading length-prefixed fields off the front of untrusted bytes.

use vstd::prelude::*;
use vstd::slice::slice_subrange;

verus! {

/// What a read of `n` bytes leaves: the bytes and the rest.
pub open spec fn taken(s: Seq<u8>, n: int) -> Option<(Seq<u8>, Seq<u8>)> {
    if 0 <= n <= s.len() {
        Some((s.take(n), s.skip(n)))
    } else {
        None
    }
}

/// The number that two bytes write, most significant first.
pub open spec fn two(s: Seq<u8>) -> u16 {
    (s[0] * 256 + s[1]) as u16
}

/// The number that four bytes write, most significant first.
pub open spec fn four(s: Seq<u8>) -> u32 {
    (s[0] * 0x100_0000 + s[1] * 0x1_0000 + s[2] * 256 + s[3]) as u32
}

/// A field behind a length of one byte.
pub open spec fn short_field(s: Seq<u8>) -> Option<(Seq<u8>, Seq<u8>)> {
    if s.len() < 1 {
        None
    } else {
        taken(s.skip(1), s[0] as int)
    }
}

/// A field behind a length of two bytes.
pub open spec fn long_field(s: Seq<u8>) -> Option<(Seq<u8>, Seq<u8>)> {
    if s.len() < 2 {
        None
    } else {
        taken(s.skip(2), two(s) as int)
    }
}

/// A cursor over bytes; its view is what it has not read. A read that fails
/// may leave the length it read behind.
#[derive(Clone, Copy, Debug)]
pub struct Reader<'a> {
    rest: &'a [u8],
}

impl<'a> View for Reader<'a> {
    type V = Seq<u8>;

    closed spec fn view(&self) -> Seq<u8> {
        self.rest@
    }
}

impl<'a> Reader<'a> {
    pub fn new(bytes: &'a [u8]) -> (r: Self)
        ensures
            r@ == bytes@,
    {
        Reader { rest: bytes }
    }

    /// What is left to read.
    pub fn rest(&self) -> (r: &'a [u8])
        ensures
            r@ == self@,
    {
        self.rest
    }

    /// The next `n` bytes.
    pub fn take(&mut self, n: usize) -> (r: Option<&'a [u8]>)
        ensures
            match r {
                Some(part) => taken(old(self)@, n as int) == Some((part@, final(self)@)),
                None => taken(old(self)@, n as int) is None && final(self)@ == old(self)@,
            },
    {
        let len: usize = self.rest.len();
        if n > len {
            return None;
        }
        let part: &'a [u8] = slice_subrange(self.rest, 0, n);
        let rest: &'a [u8] = slice_subrange(self.rest, n, len);
        proof {
            assert(part@ =~= self.rest@.take(n as int));
            assert(rest@ =~= self.rest@.skip(n as int));
        }
        self.rest = rest;
        Some(part)
    }

    pub fn u8(&mut self) -> (r: Option<u8>)
        ensures
            match r {
                Some(v) => old(self)@.len() >= 1 && v == old(self)@[0] && final(self)@ == old(
                    self,
                )@.skip(1),
                None => old(self)@.len() == 0 && final(self)@ == old(self)@,
            },
    {
        match self.take(1) {
            Some(part) => Some(part[0]),
            None => None,
        }
    }

    pub fn u16(&mut self) -> (r: Option<u16>)
        ensures
            match r {
                Some(v) => old(self)@.len() >= 2 && v == two(old(self)@) && final(self)@ == old(
                    self,
                )@.skip(2),
                None => old(self)@.len() < 2 && final(self)@ == old(self)@,
            },
    {
        match self.take(2) {
            Some(part) => Some(part[0] as u16 * 256 + part[1] as u16),
            None => None,
        }
    }

    pub fn u24(&mut self) -> (r: Option<u32>)
        ensures
            match r {
                Some(v) => old(self)@.len() >= 3 && v == old(self)@[0] * 65536 + old(self)@[1] * 256
                    + old(self)@[2] && final(self)@ == old(self)@.skip(3),
                None => old(self)@.len() < 3 && final(self)@ == old(self)@,
            },
    {
        match self.take(3) {
            Some(part) => Some(part[0] as u32 * 65536 + part[1] as u32 * 256 + part[2] as u32),
            None => None,
        }
    }

    pub fn u32(&mut self) -> (r: Option<u32>)
        ensures
            match r {
                Some(v) => old(self)@.len() >= 4 && v == four(old(self)@) && final(self)@ == old(self)@.skip(4),
                None => old(self)@.len() < 4 && final(self)@ == old(self)@,
            },
    {
        match self.take(4) {
            Some(part) => Some(
                part[0] as u32 * 0x100_0000 + part[1] as u32 * 0x1_0000 + part[2] as u32 * 256
                    + part[3] as u32,
            ),
            None => None,
        }
    }

    pub fn is_empty(&self) -> (r: bool)
        ensures
            r == (self@.len() == 0),
    {
        self.rest.len() == 0
    }

    /// A field behind a length of one byte.
    pub fn vector_u8(&mut self) -> (r: Option<&'a [u8]>)
        ensures
            match r {
                Some(part) => short_field(old(self)@) == Some((part@, final(self)@)),
                None => short_field(old(self)@) is None,
            },
    {
        match self.u8() {
            Some(n) => self.take(n as usize),
            None => None,
        }
    }

    /// A field behind a length of two bytes.
    pub fn vector_u16(&mut self) -> (r: Option<&'a [u8]>)
        ensures
            match r {
                Some(part) => long_field(old(self)@) == Some((part@, final(self)@)),
                None => long_field(old(self)@) is None,
            },
    {
        match self.u16() {
            Some(n) => self.take(n as usize),
            None => None,
        }
    }
}

/// A text of bytes behind its length in one byte.
pub open spec fn behind_one(s: Seq<u8>) -> Seq<u8> {
    seq![s.len() as u8] + s
}

/// A text of bytes behind its length in two bytes, most significant first.
pub open spec fn behind_two(s: Seq<u8>) -> Seq<u8> {
    seq![(s.len() / 256) as u8, (s.len() % 256) as u8] + s
}

/// A text of bytes behind its length in three bytes, most significant first.
pub open spec fn behind_three(s: Seq<u8>) -> Seq<u8> {
    seq![(s.len() / 65536) as u8, ((s.len() / 256) % 256) as u8, (s.len() % 256) as u8] + s
}

/// Reading undoes writing: a field behind its length is read as it was written,
/// and what follows it is left.
pub proof fn a_field_is_read_as_written(s: Seq<u8>, rest: Seq<u8>)
    ensures
        s.len() <= 255 ==> short_field(behind_one(s) + rest) == Some((s, rest)),
        s.len() <= 65535 ==> long_field(behind_two(s) + rest) == Some((s, rest)),
{
    let one = behind_one(s) + rest;
    let two = behind_two(s) + rest;
    assert(one.skip(1) =~= s + rest);
    assert(two.skip(2) =~= s + rest);
    assert((s + rest).take(s.len() as int) =~= s);
    assert((s + rest).skip(s.len() as int) =~= rest);
}

/// A field that is cut short is not read at all.
pub proof fn a_field_is_read_whole_or_not_at_all(s: Seq<u8>, cut: int)
    ensures
        s.len() <= 255 && 0 <= cut < behind_one(s).len() ==> short_field(behind_one(s).take(cut)) is None,
        s.len() <= 65535 && 0 <= cut < behind_two(s).len() ==> long_field(behind_two(s).take(cut)) is None,
{
}

} // verus!
