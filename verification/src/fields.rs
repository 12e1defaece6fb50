//! Header blocks: fields of a name and a value, in order.

use vstd::prelude::*;

use crate::text::{same_bytes, to_lower_byte};
#[allow(unused_imports)]
use crate::text;

verus! {

/// A field of a header block: a name and a value.
pub type Field = (Vec<u8>, Vec<u8>);

/// What a header block holds.
pub open spec fn block(fields: Seq<Field>) -> Seq<(Seq<u8>, Seq<u8>)> {
    Seq::new(fields.len(), |i: int| (fields[i].0@, fields[i].1@))
}

/// The bytes of a text.
pub open spec fn ascii(s: Seq<char>) -> Seq<u8> {
    vstd::utf8::encode_utf8(s)
}

/// A vector of what `s` holds.
pub fn bytes_of(s: &[u8]) -> (r: Vec<u8>)
    ensures
        r@ == s@,
{
    let mut r: Vec<u8> = Vec::new();
    r.extend_from_slice(s);
    assert(r@ =~= s@);
    r
}

/// A field of two texts.
pub fn field(name: &str, value: &str) -> (r: Field)
    ensures
        r.0@ == ascii(name@),
        r.1@ == ascii(value@),
{
    (bytes_of(name.as_bytes()), bytes_of(value.as_bytes()))
}

/// The value of the first field named `name`.
pub open spec fn first_value(fields: Seq<Field>, name: Seq<u8>) -> Option<Seq<u8>>
    decreases fields.len(),
{
    if fields.len() == 0 {
        None
    } else if fields[0].0@ == name {
        Some(fields[0].1@)
    } else {
        first_value(fields.skip(1), name)
    }
}

pub fn find_value<'a>(fields: &'a Vec<Field>, name: &[u8]) -> (r: Option<&'a Vec<u8>>)
    ensures
        match r {
            Some(value) => first_value(fields@, name@) == Some(value@),
            None => first_value(fields@, name@) is None,
        },
{
    let n: usize = fields.len();
    let mut i: usize = 0;
    assert(fields@.skip(0) =~= fields@);
    while i < n
        invariant
            i <= n,
            n == fields@.len(),
            first_value(fields@.skip(i as int), name@) == first_value(fields@, name@),
        decreases n - i,
    {
        if same_bytes(fields[i].0.as_slice(), name) {
            return Some(&fields[i].1);
        }
        assert(fields@.skip(i as int).skip(1) =~= fields@.skip(i + 1));
        i += 1;
    }
    None
}

/// Whether two texts differ in nothing but the case of ASCII letters.
pub fn same_ignoring_case(a: &[u8], b: &[u8]) -> (r: bool)
    ensures
        r == (text::lowered(a@) == text::lowered(b@)),
{
    let n: usize = a.len();
    if b.len() != n {
        assert(text::lowered(a@).len() == a@.len() && text::lowered(b@).len() == b@.len());
        return false;
    }
    let mut i: usize = 0;
    while i < n
        invariant
            i <= n,
            n == a@.len(),
            n == b@.len(),
            forall|j: int| 0 <= j < i ==> text::lower_byte(a@[j]) == text::lower_byte(b@[j]),
        decreases n - i,
    {
        if to_lower_byte(a[i]) != to_lower_byte(b[i]) {
            assert(text::lowered(a@)[i as int] != text::lowered(b@)[i as int]);
            return false;
        }
        i += 1;
    }
    assert(text::lowered(a@) =~= text::lowered(b@));
    true
}

/// The value of a name is that of the first field with it.
pub proof fn the_first_field_of_a_name_counts(fields: Seq<Field>, name: Seq<u8>, n: int)
    ensures
        0 <= n < fields.len() && fields[n].0@ == name && (forall|i: int|
            0 <= i < n ==> (#[trigger] fields[i]).0@ != name) ==> first_value(fields, name) == Some(fields[n].1@),
        (forall|i: int| 0 <= i < fields.len() ==> (#[trigger] fields[i]).0@ != name) ==> first_value(fields, name)
            is None,
    decreases fields.len(),
{
    if fields.len() > 0 {
        let rest = fields.skip(1);
        if forall|i: int| 0 <= i < fields.len() ==> (#[trigger] fields[i]).0@ != name {
            assert forall|i: int| 0 <= i < rest.len() implies (#[trigger] rest[i]).0@ != name by {
                assert(rest[i] == fields[i + 1]);
            }
        }
        if 0 < n < fields.len() && fields[n].0@ == name && (forall|i: int|
            0 <= i < n ==> (#[trigger] fields[i]).0@ != name) {
            assert(fields[0].0@ != name);
            assert forall|i: int| 0 <= i < n - 1 implies (#[trigger] rest[i]).0@ != name by {
                assert(rest[i] == fields[i + 1]);
            }
            assert(rest[n - 1] == fields[n]);
        }
        the_first_field_of_a_name_counts(rest, name, n - 1);
    }
}

} // verus!
