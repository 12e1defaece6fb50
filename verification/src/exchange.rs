//! HTTP exchanges after interception: what is refused, which fields cross the
//! hop, and which alternatives a response may advertise.
//!
//! Names of fields are in lower case throughout.

use vstd::prelude::*;
use vstd::slice::slice_subrange;

use crate::csp::{drop_fields, read_value};
#[allow(unused_imports)]
use crate::csp;
#[allow(unused_imports)]
use crate::fields;
use crate::fields::{bytes_of, field, Field};
use crate::hosts::slice_to_vec;
#[allow(unused_imports)]
use crate::name;
use crate::name::to_lowered;
#[allow(unused_imports)]
use crate::rewrite;
#[allow(unused_imports)]
use crate::text;
use crate::text::{chars_of, push_text, same_bytes, same_chars, split_chars, string_of, trim};

verus! {

/// What a filter says of one request.
#[derive(Clone, Copy, Debug, PartialEq, Eq, Structural)]
pub enum FilterVerdict {
    Allow,
    Block,
}

/// The head of a request as a filter sees it.
#[derive(Clone, Debug, PartialEq, Eq)]
pub struct RequestHead {
    pub method: String,
    pub target: String,
    pub fields: Vec<Field>,
}

/// Decides requests by their host and head.
pub trait RequestFilter {
    fn decide(&self, host: &str, request: &RequestHead) -> FilterVerdict;
}

/// Blocks nothing.
#[derive(Clone, Copy, Debug, Default)]
pub struct AllowAll;

impl RequestFilter for AllowAll {
    fn decide(&self, host: &str, request: &RequestHead) -> (r: FilterVerdict)
        ensures
            r == FilterVerdict::Allow,
    {
        FilterVerdict::Allow
    }
}

/// The status of a refused request.
pub const FORBIDDEN: u16 = 403;

/// The status of a request that the origin did not answer.
pub const BAD_GATEWAY: u16 = 502;

/// The status of an agreed upgrade.
pub const SWITCHING_PROTOCOLS: u16 = 101;

/// What becomes of the alternatives that a response advertises.
#[derive(Clone, Debug, PartialEq, Eq)]
pub enum AltSvc {
    /// No alternative was removed.
    Untouched,
    /// HTTP/3 was removed; the rest stays in order.
    Narrowed(String),
    /// Nothing is left; the advertisement is withdrawn.
    Cleared,
}

/// What becomes of the alternatives, over texts.
pub enum Steering {
    Untouched,
    Narrowed(Seq<char>),
    Cleared,
}

pub open spec fn steering_of(a: AltSvc) -> Steering {
    match a {
        AltSvc::Untouched => Steering::Untouched,
        AltSvc::Narrowed(t) => Steering::Narrowed(t@),
        AltSvc::Cleared => Steering::Cleared,
    }
}

/// Where a quoted string stands after one more character: in quotes or not,
/// and behind a backslash or not.
pub open spec fn quoting(quoted: bool, escaped: bool, c: char) -> (bool, bool) {
    if escaped {
        (quoted, false)
    } else if c == '\\' && quoted {
        (quoted, true)
    } else if c == '"' {
        (!quoted, false)
    } else {
        (quoted, false)
    }
}

/// Whether a character parts two alternatives: a comma outside quotes.
pub open spec fn parts_here(quoted: bool, escaped: bool, c: char) -> bool {
    !escaped && !quoted && c == ','
}

/// The parts of `s` between commas outside quoted strings; `part` is what the
/// first part starts with.
pub open spec fn quoted_parts(
    s: Seq<char>,
    quoted: bool,
    escaped: bool,
    part: Seq<char>,
) -> Seq<Seq<char>>
    decreases s.len(),
{
    if s.len() == 0 {
        seq![part]
    } else {
        let (q, e) = quoting(quoted, escaped, s[0]);
        if parts_here(quoted, escaped, s[0]) {
            seq![part] + quoted_parts(s.skip(1), q, e, seq![])
        } else {
            quoted_parts(s.skip(1), q, e, part.push(s[0]))
        }
    }
}

/// The alternatives of one value.
pub open spec fn alternatives(value: Seq<char>) -> Seq<Seq<char>> {
    csp::directives(quoted_parts(value, false, false, seq![]))
}

fn alt_values(value: &[char]) -> (r: Vec<Vec<char>>)
    ensures
        text::views(r@) == alternatives(value@),
{
    let mut parts: Vec<Vec<char>> = Vec::new();
    let mut part: Vec<char> = Vec::new();
    let mut quoted: bool = false;
    let mut escaped: bool = false;
    let n: usize = value.len();
    let mut i: usize = 0;
    proof {
        assert(value@.skip(0) =~= value@);
        assert(part@ =~= seq![]);
        assert(text::views(parts@) + quoted_parts(value@, false, false, seq![]) =~= quoted_parts(
            value@,
            false,
            false,
            seq![],
        ));
    }
    while i < n
        invariant
            i <= n,
            n == value@.len(),
            text::views(parts@) + quoted_parts(value@.skip(i as int), quoted, escaped, part@)
                == quoted_parts(value@, false, false, seq![]),
        decreases n - i,
    {
        let c: char = value[i];
        let ghost rest = value@.skip(i as int);
        let ghost before = parts@;
        assert(rest.skip(1) =~= value@.skip(i + 1));
        let here: bool = !escaped && !quoted && c == ',';
        if escaped {
            escaped = false;
        } else if c == '\\' && quoted {
            escaped = true;
        } else if c == '"' {
            quoted = !quoted;
        }
        if here {
            let ghost done = part@;
            parts.push(part);
            part = Vec::new();
            proof {
                assert(part@ =~= seq![]);
                assert(text::views(parts@) =~= text::views(before).push(done));
                assert(text::views(parts@) + quoted_parts(
                    value@.skip(i + 1),
                    quoted,
                    escaped,
                    part@,
                ) =~= text::views(before) + (seq![done] + quoted_parts(
                    value@.skip(i + 1),
                    quoted,
                    escaped,
                    part@,
                )));
            }
        } else {
            part.push(c);
        }
        i += 1;
    }
    let ghost before = parts@;
    let ghost done = part@;
    parts.push(part);
    assert(text::views(parts@) =~= text::views(before) + seq![done]);
    let ghost all = text::views(parts@);
    let m: usize = parts.len();
    let mut r: Vec<Vec<char>> = Vec::new();
    let mut k: usize = 0;
    assert(all.take(0) =~= seq![]);
    assert(text::views(r@) =~= seq![]);
    while k < m
        invariant
            k <= m,
            m == parts@.len(),
            all == text::views(parts@),
            text::views(r@) == csp::directives(all.take(k as int)),
        decreases m - k,
    {
        proof {
            assert(all.take(k + 1).drop_last() =~= all.take(k as int));
            assert(all.take(k + 1).last() == parts@[k as int]@);
        }
        let t: &[char] = trim(parts[k].as_slice());
        if t.len() > 0 {
            let ghost held = r@;
            r.push(slice_to_vec(t));
            assert(text::views(r@) =~= text::views(held).push(t@));
        }
        k += 1;
    }
    assert(all.take(m as int) =~= all);
    r
}

/// What a byte counts as a hexadecimal digit; 99 where it is none.
pub open spec fn hex_value(b: u8) -> int {
    if 48 <= b <= 57 {
        b - 48
    } else if 97 <= b <= 102 {
        b - 87
    } else if 65 <= b <= 70 {
        b - 55
    } else {
        99
    }
}

fn read_hex(b: u8) -> (r: u8)
    ensures
        r == hex_value(b),
{
    if 48 <= b && b <= 57 {
        b - 48
    } else if 97 <= b && b <= 102 {
        b - 87
    } else if 65 <= b && b <= 70 {
        b - 55
    } else {
        99
    }
}

/// Whether `s` starts with an escape: a percent sign and two digits.
pub open spec fn escapes(s: Seq<u8>) -> bool {
    s.len() >= 3 && s[0] == 37 && hex_value(s[1]) < 16 && hex_value(s[2]) < 16
}

/// `s` with its escapes decoded, one character for each byte; what is no
/// escape stays as it is.
pub open spec fn decoded(s: Seq<u8>) -> Seq<char>
    decreases s.len(),
{
    if s.len() == 0 {
        seq![]
    } else if escapes(s) {
        seq![(hex_value(s[1]) * 16 + hex_value(s[2])) as char] + decoded(s.skip(3))
    } else {
        seq![s[0] as char] + decoded(s.skip(1))
    }
}

/// Decodes the escapes of an identifier.
pub fn percent_decode(id: &[u8]) -> (r: Vec<char>)
    ensures
        r@ == decoded(id@),
{
    let mut r: Vec<char> = Vec::new();
    let n: usize = id.len();
    let mut i: usize = 0;
    assert(id@.skip(0) =~= id@);
    assert(r@ + decoded(id@) =~= decoded(id@));
    while i < n
        invariant
            i <= n,
            n == id@.len(),
            r@ + decoded(id@.skip(i as int)) == decoded(id@),
        decreases n - i,
    {
        let ghost rest = id@.skip(i as int);
        let ghost before = r@;
        if id[i] == 37 && n - i >= 3 && read_hex(id[i + 1]) < 16 && read_hex(id[i + 2]) < 16 {
            assert(escapes(rest));
            let b: u8 = read_hex(id[i + 1]) * 16 + read_hex(id[i + 2]);
            r.push(b as char);
            proof {
                assert(rest.skip(3) =~= id@.skip(i + 3));
                assert(r@ + decoded(id@.skip(i + 3)) =~= before + (seq![b as char] + decoded(
                    id@.skip(i + 3),
                )));
            }
            i += 3;
        } else {
            assert(!escapes(rest));
            r.push(id[i] as char);
            proof {
                assert(rest.skip(1) =~= id@.skip(i + 1));
                assert(r@ + decoded(id@.skip(i + 1)) =~= before + (seq![rest[0] as char] + decoded(
                    id@.skip(i + 1),
                )));
            }
            i += 1;
        }
    }
    assert(r@ + decoded(id@.skip(n as int)) =~= r@);
    r
}

/// The protocol that an alternative names.
pub open spec fn protocol_of(alternative: Seq<char>) -> Seq<char> {
    decoded(
        fields::ascii(
            rewrite::unquoted(
                text::trimmed(alternative.take(text::until(alternative, '=') as int)),
            ),
        ),
    )
}

/// Whether an alternative names HTTP/3 or a draft of it.
pub open spec fn is_h3(alternative: Seq<char>) -> bool {
    let p = name::lowered(protocol_of(alternative));
    p == "h3"@ || "h3-"@.is_prefix_of(p)
}

fn advertises_h3(alternative: &[char]) -> (r: bool)
    ensures
        r == is_h3(alternative@),
{
    let n: usize = alternative.len();
    let mut i: usize = 0;
    while i < n && alternative[i] != '='
        invariant
            i <= n,
            n == alternative@.len(),
            forall|j: int| 0 <= j < i ==> alternative@[j] != '=',
        decreases n - i,
    {
        i += 1;
    }
    proof {
        text::lemma_until_is(alternative@, '=', i as int);
    }
    let id: &[char] = slice_subrange(alternative, 0, i);
    assert(id@ =~= alternative@.take(i as int));
    let id: String = string_of(rewrite::unquote(trim(id)));
    let protocol: Vec<char> = percent_decode(id.as_str().as_bytes());
    let lower: Vec<char> = to_lowered(protocol.as_slice());
    let h3: Vec<char> = chars_of("h3");
    same_chars(lower.as_slice(), h3.as_slice()) || text::starts_with(lower.as_slice(), "h3-")
}

/// Whether a value withdraws every alternative.
pub open spec fn clears(value: Seq<char>) -> bool {
    csp::alike(text::trimmed(value), "clear"@)
}

/// The alternatives of several values; one that withdraws them has none.
pub open spec fn all_alternatives(values: Seq<Seq<char>>) -> Seq<Seq<char>>
    decreases values.len(),
{
    if values.len() == 0 {
        seq![]
    } else if clears(values.last()) {
        all_alternatives(values.drop_last())
    } else {
        all_alternatives(values.drop_last()) + alternatives(values.last())
    }
}

/// The alternatives that are not HTTP/3, in order.
pub open spec fn without_h3(list: Seq<Seq<char>>) -> Seq<Seq<char>>
    decreases list.len(),
{
    if list.len() == 0 {
        seq![]
    } else if is_h3(list.last()) {
        without_h3(list.drop_last())
    } else {
        without_h3(list.drop_last()).push(list.last())
    }
}

/// The alternatives as one value.
pub open spec fn listed(list: Seq<Seq<char>>) -> Seq<char>
    decreases list.len(),
{
    if list.len() == 0 {
        seq![]
    } else if list.len() == 1 {
        list[0]
    } else {
        listed(list.drop_last()) + ", "@ + list.last()
    }
}

/// What becomes of the alternatives that the values advertise.
pub open spec fn steered(values: Seq<Seq<char>>) -> Steering {
    let all = all_alternatives(values);
    let kept = without_h3(all);
    if kept.len() == all.len() {
        Steering::Untouched
    } else if kept.len() == 0 {
        Steering::Cleared
    } else {
        Steering::Narrowed(listed(kept))
    }
}

fn read_alternatives(values: &Vec<Vec<char>>) -> (r: Vec<Vec<char>>)
    ensures
        text::views(r@) == all_alternatives(text::views(values@)),
{
    let ghost all = text::views(values@);
    let clear: Vec<char> = chars_of("clear");
    let mut r: Vec<Vec<char>> = Vec::new();
    let n: usize = values.len();
    let mut i: usize = 0;
    proof {
        reveal_strlit("clear");
        assert(name::lowered("clear"@) =~= "clear"@);
        assert(all.take(0) =~= seq![]);
        assert(text::views(r@) =~= seq![]);
    }
    while i < n
        invariant
            i <= n,
            n == values@.len(),
            all == text::views(values@),
            clear@ == "clear"@,
            name::lowered("clear"@) == "clear"@,
            text::views(r@) == all_alternatives(all.take(i as int)),
        decreases n - i,
    {
        proof {
            assert(all.take(i + 1).drop_last() =~= all.take(i as int));
            assert(all.take(i + 1).last() == values@[i as int]@);
        }
        let value: &[char] = values[i].as_slice();
        let lower: Vec<char> = to_lowered(trim(value));
        if !same_chars(lower.as_slice(), clear.as_slice()) {
            let mut more: Vec<Vec<char>> = alt_values(value);
            let ghost before = r@;
            let ghost found = more@;
            r.append(&mut more);
            assert(r@ =~= before + found);
            assert(text::views(r@) =~= text::views(before) + text::views(found));
        }
        i += 1;
    }
    assert(all.take(n as int) =~= all);
    r
}

fn drop_h3(list: &Vec<Vec<char>>) -> (r: Vec<Vec<char>>)
    ensures
        text::views(r@) == without_h3(text::views(list@)),
{
    let ghost all = text::views(list@);
    let mut r: Vec<Vec<char>> = Vec::new();
    let n: usize = list.len();
    let mut i: usize = 0;
    assert(all.take(0) =~= seq![]);
    assert(text::views(r@) =~= seq![]);
    while i < n
        invariant
            i <= n,
            n == list@.len(),
            all == text::views(list@),
            text::views(r@) == without_h3(all.take(i as int)),
        decreases n - i,
    {
        proof {
            assert(all.take(i + 1).drop_last() =~= all.take(i as int));
            assert(all.take(i + 1).last() == list@[i as int]@);
        }
        if !advertises_h3(list[i].as_slice()) {
            let ghost before = r@;
            r.push(slice_to_vec(list[i].as_slice()));
            assert(text::views(r@) =~= text::views(before).push(list@[i as int]@));
        }
        i += 1;
    }
    assert(all.take(n as int) =~= all);
    r
}

fn join(list: &Vec<Vec<char>>) -> (r: String)
    ensures
        r@ == listed(text::views(list@)),
{
    let ghost all = text::views(list@);
    let mut r = String::new();
    let n: usize = list.len();
    let mut i: usize = 0;
    assert(all.take(0) =~= seq![]);
    assert(r@ =~= seq![]);
    while i < n
        invariant
            i <= n,
            n == list@.len(),
            all == text::views(list@),
            r@ == listed(all.take(i as int)),
        decreases n - i,
    {
        if i > 0 {
            push_text(&mut r, ", ");
        }
        let part: String = string_of(list[i].as_slice());
        push_text(&mut r, part.as_str());
        proof {
            assert(all.take(i + 1).drop_last() =~= all.take(i as int));
            assert(all.take(i + 1).last() == list@[i as int]@);
            assert(r@ =~= listed(all.take(i + 1)));
        }
        i += 1;
    }
    assert(all.take(n as int) =~= all);
    r
}

fn steer(values: &Vec<Vec<char>>) -> (r: AltSvc)
    ensures
        steering_of(r) == steered(text::views(values@)),
{
    let all: Vec<Vec<char>> = read_alternatives(values);
    let kept: Vec<Vec<char>> = drop_h3(&all);
    proof {
        assert(text::views(all@).len() == all@.len());
        assert(text::views(kept@).len() == kept@.len());
    }
    if kept.len() == all.len() {
        AltSvc::Untouched
    } else if kept.len() == 0 {
        AltSvc::Cleared
    } else {
        AltSvc::Narrowed(join(&kept))
    }
}

/// The texts of a list.
pub open spec fn texts(values: Seq<&str>) -> Seq<Seq<char>> {
    Seq::new(values.len(), |i: int| values[i]@)
}

/// Removes HTTP/3 from the alternatives that the values advertise.
pub fn steer_alt_svc(values: &[&str]) -> (r: AltSvc)
    ensures
        steering_of(r) == steered(texts(values@)),
{
    let mut list: Vec<Vec<char>> = Vec::new();
    let n: usize = values.len();
    let mut i: usize = 0;
    assert(text::views(list@) =~= texts(values@).take(0));
    while i < n
        invariant
            i <= n,
            n == values@.len(),
            text::views(list@) == texts(values@).take(i as int),
        decreases n - i,
    {
        let ghost before = list@;
        let one: Vec<char> = chars_of(values[i]);
        let ghost held = one@;
        list.push(one);
        proof {
            assert(text::views(list@) =~= text::views(before).push(held));
            assert(texts(values@)[i as int] == held);
            assert(text::views(list@) =~= texts(values@).take(i + 1));
        }
        i += 1;
    }
    assert(texts(values@).take(n as int) =~= texts(values@));
    steer(&list)
}

/// Every alternative but HTTP/3 is kept, in order, and no HTTP/3 is.
pub proof fn exactly_http3_is_removed(list: Seq<Seq<char>>)
    ensures
        forall|i: int| 0 <= i < without_h3(list).len() ==> !is_h3(#[trigger] without_h3(list)[i]),
        forall|i: int|
            0 <= i < list.len() && !is_h3(list[i]) ==> without_h3(list).contains(
                #[trigger] list[i],
            ),
        without_h3(without_h3(list)) == without_h3(list),
    decreases list.len(),
{
    if list.len() > 0 {
        let rest = list.drop_last();
        exactly_http3_is_removed(rest);
        let kept = without_h3(rest);
        let all = without_h3(list);
        assert forall|i: int| 0 <= i < list.len() && !is_h3(list[i]) implies all.contains(
            #[trigger] list[i],
        ) by {
            if i < rest.len() {
                assert(rest[i] == list[i]);
                assert(kept.contains(list[i]));
                let k = choose|k: int| 0 <= k < kept.len() && kept[k] == list[i];
                assert(all[k] == list[i]);
            } else {
                assert(all[kept.len() as int] == list[i]);
            }
        }
        if !is_h3(list.last()) {
            assert(all.drop_last() =~= kept);
        }
    }
}

/// The texts of the fields of one name that read as text, in order.
pub open spec fn field_texts(block: Seq<Field>, name: Seq<u8>) -> Seq<Seq<char>>
    decreases block.len(),
{
    if block.len() == 0 {
        seq![]
    } else {
        let before = field_texts(block.drop_last(), name);
        if block.last().0@ == name {
            match csp::value_text(block.last().1@) {
                Some(t) => before.push(t),
                None => before,
            }
        } else {
            before
        }
    }
}

fn read_texts(block: &Vec<Field>, wanted: &[u8]) -> (r: Vec<Vec<char>>)
    ensures
        text::views(r@) == field_texts(block@, wanted@),
{
    let mut r: Vec<Vec<char>> = Vec::new();
    let n: usize = block.len();
    let mut i: usize = 0;
    assert(block@.take(0) =~= seq![]);
    assert(text::views(r@) =~= seq![]);
    while i < n
        invariant
            i <= n,
            n == block@.len(),
            text::views(r@) == field_texts(block@.take(i as int), wanted@),
        decreases n - i,
    {
        assert(block@.take(i + 1).drop_last() =~= block@.take(i as int));
        if same_bytes(block[i].0.as_slice(), wanted) {
            match read_value(block[i].1.as_slice()) {
                Some(chars) => {
                    let ghost before = r@;
                    r.push(chars);
                    assert(text::views(r@) =~= text::views(before).push(chars@));
                },
                None => {},
            }
        }
        i += 1;
    }
    assert(block@.take(n as int) =~= block@);
    r
}

/// The value that a response goes on with in place of what it advertised.
pub open spec fn replacement(s: Steering) -> Option<Seq<char>> {
    match s {
        Steering::Untouched => None,
        Steering::Cleared => Some("clear"@),
        Steering::Narrowed(t) => if csp::is_value(t) {
            Some(t)
        } else {
            Some("clear"@)
        },
    }
}

/// A response's fields after its alternatives were steered.
pub open spec fn steered_block(block: Seq<Field>) -> Seq<(Seq<u8>, Seq<u8>)> {
    let alt = fields::ascii("alt-svc"@);
    match replacement(steered(field_texts(block, alt))) {
        None => fields::block(block),
        Some(t) => csp::without(block, alt).push((alt, fields::ascii(t))),
    }
}

/// Steers the alternatives that a response advertises.
pub fn steer_response(block: &mut Vec<Field>)
    ensures
        fields::block(final(block)@) == steered_block(old(block)@),
{
    let values: Vec<Vec<char>> = read_texts(block, "alt-svc".as_bytes());
    let value: String = match steer(&values) {
        AltSvc::Untouched => {
            return;
        },
        AltSvc::Cleared => "clear".to_owned(),
        AltSvc::Narrowed(kept) => {
            let chars: Vec<char> = chars_of(kept.as_str());
            if csp::text_is_value(chars.as_slice()) {
                kept
            } else {
                "clear".to_owned()
            }
        },
    };
    let mut rest: Vec<Field> = drop_fields(block, "alt-svc".as_bytes());
    let ghost before = rest@;
    let one: Field = field("alt-svc", value.as_str());
    rest.push(one);
    assert(fields::block(rest@) =~= fields::block(before).push((one.0@, one.1@)));
    *block = rest;
}

/// Whether a request offers to hand its connection to another protocol.
#[derive(Clone, Copy, Debug, PartialEq, Eq, Structural)]
pub enum Handling {
    Ordinary,
    /// The offer is kept.
    Upgrade,
}

/// The tokens of texts with commas between, without white space at their ends.
pub open spec fn tokens_of(list: Seq<Seq<char>>) -> Seq<Seq<char>>
    decreases list.len(),
{
    if list.len() == 0 {
        seq![]
    } else {
        tokens_of(list.drop_last()) + trimmed_all(text::split_at_each(list.last(), ','))
    }
}

/// The texts without white space at their ends.
pub open spec fn trimmed_all(list: Seq<Seq<char>>) -> Seq<Seq<char>> {
    Seq::new(list.len(), |i: int| text::trimmed(list[i]))
}

/// The tokens that the `connection` fields hold.
pub open spec fn connection_tokens(block: Seq<Field>) -> Seq<Seq<char>> {
    tokens_of(field_texts(block, fields::ascii("connection"@)))
}

fn read_connection(block: &Vec<Field>) -> (r: Vec<Vec<char>>)
    ensures
        text::views(r@) == connection_tokens(block@),
{
    let list: Vec<Vec<char>> = read_texts(block, "connection".as_bytes());
    let ghost all = text::views(list@);
    let mut r: Vec<Vec<char>> = Vec::new();
    let n: usize = list.len();
    let mut i: usize = 0;
    assert(all.take(0) =~= seq![]);
    assert(text::views(r@) =~= seq![]);
    while i < n
        invariant
            i <= n,
            n == list@.len(),
            all == text::views(list@),
            text::views(r@) == tokens_of(all.take(i as int)),
        decreases n - i,
    {
        proof {
            assert(all.take(i + 1).drop_last() =~= all.take(i as int));
            assert(all.take(i + 1).last() == list@[i as int]@);
        }
        let parts: Vec<Vec<char>> = split_chars(list[i].as_slice(), ',');
        let ghost before = text::views(r@);
        let ghost more = trimmed_all(text::views(parts@));
        let m: usize = parts.len();
        let mut k: usize = 0;
        assert(before + more.take(0) =~= before);
        while k < m
            invariant
                k <= m,
                m == parts@.len(),
                more == trimmed_all(text::views(parts@)),
                text::views(r@) == before + more.take(k as int),
            decreases m - k,
        {
            let ghost held = r@;
            let t: &[char] = trim(parts[k].as_slice());
            r.push(slice_to_vec(t));
            proof {
                assert(text::views(r@) =~= text::views(held).push(t@));
                assert(more[k as int] == t@);
                assert(text::views(r@) =~= before + more.take(k + 1));
            }
            k += 1;
        }
        assert(more.take(m as int) =~= more);
        i += 1;
    }
    assert(all.take(n as int) =~= all);
    r
}

/// Whether one of the tokens is `upgrade`, case aside.
pub open spec fn offers_upgrade(tokens: Seq<Seq<char>>) -> bool {
    csp::has_word(tokens, "upgrade"@)
}

/// Whether a block has a field of this name.
pub open spec fn has_field(block: Seq<Field>, name: Seq<u8>) -> bool {
    exists|i: int| 0 <= i < block.len() && (#[trigger] block[i]).0@ == name
}

fn any_field(block: &Vec<Field>, wanted: &[u8]) -> (r: bool)
    ensures
        r == has_field(block@, wanted@),
{
    let n: usize = block.len();
    let mut i: usize = 0;
    while i < n
        invariant
            i <= n,
            n == block@.len(),
            forall|j: int| 0 <= j < i ==> (#[trigger] block@[j]).0@ != wanted@,
        decreases n - i,
    {
        if same_bytes(block[i].0.as_slice(), wanted) {
            assert(block@[i as int].0@ == wanted@);
            return true;
        }
        i += 1;
    }
    false
}

/// How a request with these fields is handled: an upgrade takes both the token
/// and the field that names the protocol.
pub open spec fn handling_of(block: Seq<Field>) -> Handling {
    if offers_upgrade(connection_tokens(block)) && has_field(block, fields::ascii("upgrade"@)) {
        Handling::Upgrade
    } else {
        Handling::Ordinary
    }
}

pub fn handling(block: &Vec<Field>) -> (r: Handling)
    ensures
        r == handling_of(block@),
{
    let tokens: Vec<Vec<char>> = read_connection(block);
    if csp::any_word(&tokens, "upgrade") && any_field(block, "upgrade".as_bytes()) {
        Handling::Upgrade
    } else {
        Handling::Ordinary
    }
}

/// The fields that never cross an ordinary hop.
pub open spec fn is_hop_by_hop(name: Seq<u8>) -> bool {
    ||| name == fields::ascii("keep-alive"@)
    ||| name == fields::ascii("proxy-authenticate"@)
    ||| name == fields::ascii("proxy-authorization"@)
    ||| name == fields::ascii("te"@)
    ||| name == fields::ascii("trailer"@)
    ||| name == fields::ascii("transfer-encoding"@)
    ||| name == fields::ascii("content-length"@)
}

/// Whether the tokens name the field. On an upgrade the token that offers it
/// names nothing.
pub open spec fn nominated(tokens: Seq<Seq<char>>, handling: Handling, name: Seq<u8>) -> bool {
    exists|i: int|
        0 <= i < tokens.len() && fields::ascii(name::lowered(#[trigger] tokens[i])) == name && (
        handling == Handling::Ordinary || !csp::alike(tokens[i], "upgrade"@))
}

/// Whether a field stays behind at the hop.
pub open spec fn discarded(tokens: Seq<Seq<char>>, handling: Handling, name: Seq<u8>) -> bool {
    ||| is_hop_by_hop(name)
    ||| handling == Handling::Ordinary && (name == fields::ascii("connection"@) || name
        == fields::ascii("upgrade"@))
    ||| nominated(tokens, handling, name)
}

/// The fields that cross the hop, in order.
pub open spec fn crossing(
    block: Seq<(Seq<u8>, Seq<u8>)>,
    tokens: Seq<Seq<char>>,
    handling: Handling,
) -> Seq<(Seq<u8>, Seq<u8>)>
    decreases block.len(),
{
    if block.len() == 0 {
        seq![]
    } else {
        let before = crossing(block.drop_last(), tokens, handling);
        if discarded(tokens, handling, block.last().0) {
            before
        } else {
            before.push(block.last())
        }
    }
}

fn hop_by_hop(field: &[u8]) -> (r: bool)
    ensures
        r == is_hop_by_hop(field@),
{
    same_bytes(field, "keep-alive".as_bytes()) || same_bytes(field, "proxy-authenticate".as_bytes())
        || same_bytes(field, "proxy-authorization".as_bytes()) || same_bytes(field, "te".as_bytes())
        || same_bytes(field, "trailer".as_bytes()) || same_bytes(
        field,
        "transfer-encoding".as_bytes(),
    ) || same_bytes(field, "content-length".as_bytes())
}

fn is_nominated(tokens: &Vec<Vec<char>>, handling: Handling, field: &[u8]) -> (r: bool)
    ensures
        r == nominated(text::views(tokens@), handling, field@),
{
    let ghost all = text::views(tokens@);
    let n: usize = tokens.len();
    let upgrade: Vec<char> = chars_of("upgrade");
    let mut i: usize = 0;
    while i < n
        invariant
            i <= n,
            n == tokens@.len(),
            all == text::views(tokens@),
            upgrade@ == "upgrade"@,
            forall|j: int|
                0 <= j < i ==> !(fields::ascii(name::lowered(#[trigger] all[j])) == field@ && (
                handling == Handling::Ordinary || !csp::alike(all[j], "upgrade"@))),
        decreases n - i,
    {
        assert(all[i as int] == tokens@[i as int]@);
        let lower: Vec<char> = to_lowered(tokens[i].as_slice());
        let named: String = string_of(lower.as_slice());
        if same_bytes(named.as_str().as_bytes(), field) && (handling == Handling::Ordinary
            || !csp::is_alike(tokens[i].as_slice(), upgrade.as_slice())) {
            assert(fields::ascii(name::lowered(all[i as int])) == field@);
            return true;
        }
        i += 1;
    }
    false
}

/// Removes the fields that do not cross the hop; the rest keeps its order.
pub fn strip_hop_by_hop(block: &mut Vec<Field>, handling: Handling)
    ensures
        fields::block(final(block)@) == crossing(
            fields::block(old(block)@),
            connection_tokens(old(block)@),
            handling,
        ),
{
    let tokens: Vec<Vec<char>> = read_connection(block);
    let ghost named = text::views(tokens@);
    let ghost all = fields::block(block@);
    let mut kept: Vec<Field> = Vec::new();
    let n: usize = block.len();
    let mut i: usize = 0;
    assert(all.take(0) =~= seq![]);
    assert(fields::block(kept@) =~= seq![]);
    while i < n
        invariant
            i <= n,
            n == block@.len(),
            all == fields::block(block@),
            named == text::views(tokens@),
            fields::block(kept@) == crossing(all.take(i as int), named, handling),
        decreases n - i,
    {
        let one: &[u8] = block[i].0.as_slice();
        proof {
            assert(all.take(i + 1).drop_last() =~= all.take(i as int));
            assert(all.take(i + 1).last() == (block@[i as int].0@, block@[i as int].1@));
        }
        let ends_here: bool = match handling {
            Handling::Ordinary => same_bytes(one, "connection".as_bytes()) || same_bytes(
                one,
                "upgrade".as_bytes(),
            ),
            Handling::Upgrade => false,
        };
        if !(hop_by_hop(one) || ends_here || is_nominated(&tokens, handling, one)) {
            let ghost before = kept@;
            let copy: Field = (bytes_of(one), bytes_of(block[i].1.as_slice()));
            kept.push(copy);
            assert(fields::block(kept@) =~= fields::block(before).push((copy.0@, copy.1@)));
        }
        i += 1;
    }
    assert(all.take(n as int) =~= all);
    *block = kept;
}

/// Nothing that stays behind at the hop is among what crosses it, and
/// everything else is.
pub proof fn exactly_the_discarded_fields_stay_behind(
    block: Seq<(Seq<u8>, Seq<u8>)>,
    tokens: Seq<Seq<char>>,
    handling: Handling,
)
    ensures
        forall|i: int|
            0 <= i < crossing(block, tokens, handling).len() ==> !discarded(
                tokens,
                handling,
                (#[trigger] crossing(block, tokens, handling)[i]).0,
            ),
        forall|i: int|
            0 <= i < block.len() && !discarded(tokens, handling, block[i].0) ==> crossing(
                block,
                tokens,
                handling,
            ).contains(#[trigger] block[i]),
        crossing(crossing(block, tokens, handling), tokens, handling) == crossing(
            block,
            tokens,
            handling,
        ),
    decreases block.len(),
{
    if block.len() > 0 {
        let rest = block.drop_last();
        exactly_the_discarded_fields_stay_behind(rest, tokens, handling);
        let kept = crossing(rest, tokens, handling);
        let all = crossing(block, tokens, handling);
        assert forall|i: int|
            0 <= i < block.len() && !discarded(tokens, handling, block[i].0) implies all.contains(
            #[trigger] block[i],
        ) by {
            if i < rest.len() {
                assert(rest[i] == block[i]);
                assert(kept.contains(block[i]));
                let k = choose|k: int| 0 <= k < kept.len() && kept[k] == block[i];
                assert(all[k] == block[i]);
            } else {
                assert(all[kept.len() as int] == block[i]);
            }
        }
        if !discarded(tokens, handling, block.last().0) {
            assert(all.drop_last() =~= kept);
        }
    }
}

/// Dropping fields leaves the order of the rest: what crosses of two blocks in
/// a row is what crosses of the first and then what crosses of the second.
pub proof fn the_order_of_the_rest_is_kept(
    a: Seq<(Seq<u8>, Seq<u8>)>,
    b: Seq<(Seq<u8>, Seq<u8>)>,
    tokens: Seq<Seq<char>>,
    handling: Handling,
)
    ensures
        crossing(a + b, tokens, handling) == crossing(a, tokens, handling) + crossing(
            b,
            tokens,
            handling,
        ),
    decreases b.len(),
{
    if b.len() == 0 {
        assert(a + b =~= a);
        assert(crossing(a, tokens, handling) + crossing(b, tokens, handling) =~= crossing(
            a,
            tokens,
            handling,
        ));
    } else {
        the_order_of_the_rest_is_kept(a, b.drop_last(), tokens, handling);
        assert((a + b).drop_last() =~= a + b.drop_last());
        assert(crossing(a + b, tokens, handling) =~= crossing(a, tokens, handling) + crossing(
            b,
            tokens,
            handling,
        ));
    }
}

/// What is done with a request.
#[derive(Clone, Copy, Debug, PartialEq, Eq, Structural)]
pub enum RequestStep {
    /// It is answered here, with this status.
    Refuse(u16),
    /// It goes to the origin.
    Send(Handling),
}

/// Takes a request that the filter has judged: a blocked one is refused as it
/// is, and the fields of any other are made ready for the hop.
pub fn take_request(verdict: FilterVerdict, block: &mut Vec<Field>) -> (r: RequestStep)
    ensures
        verdict == FilterVerdict::Block ==> r == RequestStep::Refuse(FORBIDDEN) && *final(block)
            == *old(block),
        verdict == FilterVerdict::Allow ==> r == RequestStep::Send(handling_of(old(block)@))
            && fields::block(final(block)@) == crossing(
            fields::block(old(block)@),
            connection_tokens(old(block)@),
            handling_of(old(block)@),
        ),
{
    match verdict {
        FilterVerdict::Block => RequestStep::Refuse(FORBIDDEN),
        FilterVerdict::Allow => {
            let how: Handling = handling(block);
            strip_hop_by_hop(block, how);
            RequestStep::Send(how)
        },
    }
}

/// What is done with the answer to a request.
#[derive(Clone, Copy, Debug, PartialEq, Eq, Structural)]
pub enum ResponseStep {
    /// The origin did not answer; this status goes back.
    Fail(u16),
    /// Both connections are handed over, and the response goes back as it is.
    Splice,
    /// The response goes back, its fields made ready for the hop.
    Return,
}

/// Takes the origin's answer, given as its status, or that there was none.
pub fn take_response(how: Handling, status: Option<u16>, block: &mut Vec<Field>) -> (r: ResponseStep)
    ensures
        match status {
            None => r == ResponseStep::Fail(BAD_GATEWAY) && *final(block) == *old(block),
            Some(s) => if how == Handling::Upgrade && s == SWITCHING_PROTOCOLS {
                r == ResponseStep::Splice && *final(block) == *old(block)
            } else {
                r == ResponseStep::Return && exists|crossed: Seq<Field>|
                    fields::block(crossed) == crossing(
                        fields::block(old(block)@),
                        connection_tokens(old(block)@),
                        Handling::Ordinary,
                    ) && fields::block(final(block)@) == #[trigger] steered_block(crossed)
            },
        },
{
    match status {
        None => ResponseStep::Fail(BAD_GATEWAY),
        Some(s) => {
            if how == Handling::Upgrade && s == SWITCHING_PROTOCOLS {
                return ResponseStep::Splice;
            }
            strip_hop_by_hop(block, Handling::Ordinary);
            let ghost crossed = block@;
            steer_response(block);
            assert(fields::block(block@) == steered_block(crossed));
            ResponseStep::Return
        },
    }
}

/// How many quotes stand among the first characters of a text.
pub open spec fn quotes(s: Seq<char>, n: int) -> nat
    decreases n,
{
    if n <= 0 {
        0
    } else {
        quotes(s, n - 1) + (if s[n - 1] == '"' {
            1nat
        } else {
            0
        })
    }
}

/// Whether a text is one alternative as a server writes it: bare, with its quotes in
/// pairs and no backslash, and a comma only between two quotes of a pair.
pub open spec fn is_alternative(s: Seq<char>) -> bool {
    &&& csp::is_bare(s)
    &&& quotes(s, s.len() as int) % 2 == 0
    &&& !s.contains('\\')
    &&& forall|i: int| 0 <= i < s.len() && #[trigger] s[i] == ',' ==> quotes(s, i) % 2 == 1
}

/// Alternatives with a comma and a space between.
pub open spec fn written_alternatives(list: Seq<Seq<char>>) -> Seq<char>
    decreases list.len(),
{
    if list.len() == 0 {
        seq![]
    } else if list.len() == 1 {
        list[0]
    } else {
        list[0] + seq![',', ' '] + written_alternatives(list.skip(1))
    }
}

proof fn lemma_part_goes_on(s: Seq<char>, rest: Seq<char>, i: int, part: Seq<char>)
    requires
        0 <= i <= s.len(),
        quotes(s, s.len() as int) % 2 == 0,
        !s.contains('\\'),
        forall|j: int| 0 <= j < s.len() && #[trigger] s[j] == ',' ==> quotes(s, j) % 2 == 1,
    ensures
        quoted_parts(s.skip(i) + rest, quotes(s, i) % 2 == 1, false, part) == quoted_parts(
            rest,
            false,
            false,
            part + s.skip(i),
        ),
    decreases s.len() - i,
{
    let t = s.skip(i) + rest;
    if i == s.len() {
        assert(t =~= rest);
        assert(part + s.skip(i) =~= part);
    } else {
        assert(t[0] == s[i]);
        assert(s.contains(s[i]));
        assert(t.skip(1) =~= s.skip(i + 1) + rest);
        lemma_part_goes_on(s, rest, i + 1, part.push(s[i]));
        assert(part.push(s[i]) + s.skip(i + 1) =~= part + s.skip(i));
        assert(quotes(s, i + 1) == quotes(s, i) + (if s[i] == '"' {
            1nat
        } else {
            0
        }));
    }
}

proof fn lemma_directives_front(parts: Seq<Seq<char>>)
    requires
        parts.len() > 0,
    ensures
        csp::directives(parts) == (if text::trimmed(parts[0]).len() == 0 {
            Seq::<Seq<char>>::empty()
        } else {
            seq![text::trimmed(parts[0])]
        }) + csp::directives(parts.skip(1)),
    decreases parts.len(),
{
    let head = if text::trimmed(parts[0]).len() == 0 {
        Seq::<Seq<char>>::empty()
    } else {
        seq![text::trimmed(parts[0])]
    };
    if parts.len() == 1 {
        assert(parts.drop_last() =~= seq![]);
        assert(parts.skip(1) =~= seq![]);
        assert(csp::directives(parts) =~= head + csp::directives(parts.skip(1)));
    } else {
        lemma_directives_front(parts.drop_last());
        assert(parts.drop_last().skip(1) =~= parts.skip(1).drop_last());
        assert(parts.skip(1).last() == parts.last());
        assert(csp::directives(parts) =~= head + csp::directives(parts.skip(1)));
    }
}

proof fn lemma_alternatives_from(list: Seq<Seq<char>>, lead: Seq<char>)
    requires
        list.len() > 0,
        forall|i: int| 0 <= i < list.len() ==> is_alternative(#[trigger] list[i]),
        lead =~= seq![] || lead =~= seq![' '],
    ensures
        csp::directives(quoted_parts(lead + written_alternatives(list), false, false, seq![])) == list,
    decreases list.len(),
{
    let first = list[0];
    assert(is_alternative(list[0]));
    let rest = if list.len() == 1 {
        Seq::<char>::empty()
    } else {
        seq![',', ' '] + written_alternatives(list.skip(1))
    };
    let s = lead + written_alternatives(list);
    assert(written_alternatives(list) =~= first + rest);
    let none = Seq::<char>::empty();
    assert(first.skip(0) =~= first);
    lemma_part_goes_on(first, rest, 0, lead);
    assert(quoted_parts(s, false, false, none) == quoted_parts(rest, false, false, lead + first)) by {
        if lead.len() > 0 {
            assert(s[0] == ' ');
            assert(s.skip(1) =~= first + rest);
            assert(none.push(' ') =~= lead);
        } else {
            assert(s =~= first + rest);
            assert(lead =~= none);
        }
    }
    let part = lead + first;
    assert(text::trimmed(part) == first) by {
        csp::lemma_bare_is_trimmed(first);
        if lead.len() > 0 {
            assert(part =~= seq![' '] + first);
        } else {
            assert(part =~= first);
        }
    }
    let parts = quoted_parts(rest, false, false, part);
    if list.len() == 1 {
        assert(parts =~= seq![part]);
        lemma_directives_front(parts);
        assert(parts.skip(1) =~= seq![]);
        assert(csp::directives(parts.skip(1)) =~= seq![]);
        assert(csp::directives(parts) =~= list);
    } else {
        let others = list.skip(1);
        assert forall|i: int| 0 <= i < others.len() implies is_alternative(#[trigger] others[i]) by {
            assert(others[i] == list[i + 1]);
        }
        lemma_alternatives_from(others, seq![' ']);
        assert(rest[0] == ',');
        assert(rest.skip(1) =~= seq![' '] + written_alternatives(others));
        let more = quoted_parts(rest.skip(1), false, false, none);
        assert(parts == seq![part] + more);
        lemma_directives_front(parts);
        assert(parts.skip(1) =~= more);
        assert(csp::directives(parts) =~= list);
    }
}

/// The alternatives of a value are read as a server writes them, in order; a comma
/// between quotes parts nothing.
pub proof fn alternatives_are_read_as_written(list: Seq<Seq<char>>)
    requires
        list.len() > 0,
        forall|i: int| 0 <= i < list.len() ==> is_alternative(#[trigger] list[i]),
    ensures
        alternatives(written_alternatives(list)) == list,
{
    let none = Seq::<char>::empty();
    lemma_alternatives_from(list, none);
    assert(none + written_alternatives(list) =~= written_alternatives(list));
}

proof fn lemma_decoded_plain(s: Seq<u8>)
    requires
        forall|i: int| 0 <= i < s.len() ==> #[trigger] s[i] != 37,
    ensures
        decoded(s).len() == s.len(),
        forall|i: int| 0 <= i < s.len() ==> #[trigger] decoded(s)[i] == s[i] as char,
    decreases s.len(),
{
    if s.len() > 0 {
        let rest = s.skip(1);
        assert forall|i: int| 0 <= i < rest.len() implies #[trigger] rest[i] != 37 by {
            assert(rest[i] == s[i + 1]);
        }
        lemma_decoded_plain(rest);
        assert(s[0] != 37);
        assert forall|i: int| 0 <= i < s.len() implies #[trigger] decoded(s)[i] == s[i] as char by {
            if i > 0 {
                assert(decoded(s)[i] == decoded(rest)[i - 1]);
                assert(rest[i - 1] == s[i]);
            }
        }
    }
}

/// Decoding reads every escape, in either case, as the byte that it writes, and
/// leaves everything else as it is.
pub proof fn an_escape_is_the_byte_it_writes(b: u8, rest: Seq<u8>)
    ensures
        ({
            let high = if b / 16 < 10 { (48 + b / 16) as u8 } else { (87 + b / 16) as u8 };
            let low = if b % 16 < 10 { (48 + b % 16) as u8 } else { (87 + b % 16) as u8 };
            decoded(seq![37u8, high, low] + rest) == seq![b as char] + decoded(rest)
        }),
        ({
            let high = if b / 16 < 10 { (48 + b / 16) as u8 } else { (55 + b / 16) as u8 };
            let low = if b % 16 < 10 { (48 + b % 16) as u8 } else { (55 + b % 16) as u8 };
            decoded(seq![37u8, high, low] + rest) == seq![b as char] + decoded(rest)
        }),
        b != 37 ==> decoded(seq![b] + rest) == seq![b as char] + decoded(rest),
{
    let high = if b / 16 < 10 { (48 + b / 16) as u8 } else { (87 + b / 16) as u8 };
    let low = if b % 16 < 10 { (48 + b % 16) as u8 } else { (87 + b % 16) as u8 };
    let s = seq![37u8, high, low] + rest;
    assert(s.skip(3) =~= rest);
    assert(hex_value(high) == b / 16 && hex_value(low) == b % 16);
    let up = if b / 16 < 10 { (48 + b / 16) as u8 } else { (55 + b / 16) as u8 };
    let down = if b % 16 < 10 { (48 + b % 16) as u8 } else { (55 + b % 16) as u8 };
    let t = seq![37u8, up, down] + rest;
    assert(t.skip(3) =~= rest);
    assert(hex_value(up) == b / 16 && hex_value(down) == b % 16);
    assert((seq![b] + rest).skip(1) =~= rest);
}

/// Whether a protocol's name is HTTP/3's or that of a draft of it, in whatever case.
pub open spec fn names_http3(p: Seq<char>) -> bool {
    &&& p.len() == 2 || (p.len() >= 3 && p[2] == '-')
    &&& p[0] == 'h' || p[0] == 'H'
    &&& p[1] == '3'
}

/// An alternative is HTTP/3 by the name before its equals sign: `h3`, or a draft
/// `h3-` with anything behind it, in whatever case. Nothing else is, whatever stands
/// behind the sign.
pub proof fn an_alternative_is_known_by_its_protocol(p: Seq<char>, rest: Seq<char>)
    requires
        p.len() > 0,
        forall|i: int| 0 <= i < p.len() ==> '!' <= #[trigger] p[i] <= '~' && p[i] != '=' && p[i] != '"' && p[i] != '%',
    ensures
        is_h3(p + seq!['='] + rest) <==> names_http3(p),
        is_h3(p) <==> names_http3(p),
{
    let a = p + seq!['='] + rest;
    assert forall|i: int| 0 <= i < p.len() implies a[i] != '=' by {
        assert(a[i] == p[i]);
    }
    text::lemma_until_is(a, '=', p.len() as int);
    text::lemma_until_is(p, '=', p.len() as int);
    assert(a.take(p.len() as int) =~= p);
    assert(p.take(p.len() as int) =~= p);
    assert forall|i: int| 0 <= i < p.len() implies !text::is_space(#[trigger] p[i]) by {}
    text::a_text_without_white_space_is_one_word(p);
    assert(p[0] != '"' && p[p.len() - 1] != '"');
    assert(rewrite::unquoted(p) == p);
    assert(vstd::utf8::is_ascii_chars(p));
    vstd::utf8::is_ascii_chars_encode_utf8(p);
    let bytes = fields::ascii(p);
    assert forall|i: int| 0 <= i < bytes.len() implies #[trigger] bytes[i] != 37 by {
        assert(bytes[i] == p[i] as u8);
        assert(p[i] != '%');
    }
    lemma_decoded_plain(bytes);
    assert(decoded(bytes) =~= p) by {
        assert forall|i: int| 0 <= i < p.len() implies decoded(bytes)[i] == p[i] by {
            assert(bytes[i] == p[i] as u8);
        }
    }
    let low = name::lowered(p);
    reveal_strlit("h3");
    reveal_strlit("h3-");
    assert(low.len() == p.len());
    if names_http3(p) {
        if p.len() == 2 {
            assert(low =~= "h3"@);
        } else {
            assert(low.take(3) =~= "h3-"@);
            assert("h3-"@.is_prefix_of(low));
        }
    }
    if low == "h3"@ {
        assert(low[0] == "h3"@[0] && low[1] == "h3"@[1]);
    }
    if "h3-"@.is_prefix_of(low) {
        assert(low[0] == "h3-"@[0] && low[1] == "h3-"@[1] && low[2] == "h3-"@[2]);
    }
}

/// What is kept of two lists one after the other is what is kept of each.
pub proof fn alternatives_are_kept_one_by_one(a: Seq<Seq<char>>, b: Seq<Seq<char>>, one: Seq<char>)
    ensures
        without_h3(a + b) == without_h3(a) + without_h3(b),
        without_h3(seq![one]) == (if is_h3(one) {
            Seq::<Seq<char>>::empty()
        } else {
            seq![one]
        }),
    decreases b.len(),
{
    assert(seq![one].drop_last() =~= seq![]);
    assert(without_h3(seq![one].drop_last()) =~= seq![]);
    assert(without_h3(seq![one]) =~= (if is_h3(one) {
        Seq::<Seq<char>>::empty()
    } else {
        seq![one]
    }));
    if b.len() == 0 {
        assert(a + b =~= a);
        assert(without_h3(a) + without_h3(b) =~= without_h3(a));
    } else {
        alternatives_are_kept_one_by_one(a, b.drop_last(), one);
        assert((a + b).drop_last() =~= a + b.drop_last());
        assert(without_h3(a + b) =~= without_h3(a) + without_h3(b));
    }
}

/// What becomes of the alternatives that one value advertises. Where none is HTTP/3
/// they stay untouched, where all are they are cleared, and otherwise the others go
/// on, as they were and in order, with a comma and a space between.
pub proof fn exactly_http3_goes_from_an_advertisement(values: &[&str], list: Seq<Seq<char>>, r: AltSvc)
    requires
        call_ensures(steer_alt_svc, (values,), r),
        list.len() > 0,
        forall|i: int| 0 <= i < list.len() ==> is_alternative(#[trigger] list[i]),
        values@.len() == 1,
        values@[0]@ == written_alternatives(list),
        !csp::same_but_case(written_alternatives(list), "clear"@),
    ensures
        (forall|i: int| 0 <= i < list.len() ==> !is_h3(#[trigger] list[i])) ==> r is Untouched,
        (forall|i: int| 0 <= i < list.len() ==> is_h3(#[trigger] list[i])) ==> r is Cleared,
        (exists|i: int| 0 <= i < list.len() && is_h3(#[trigger] list[i])) && (exists|i: int|
            0 <= i < list.len() && !is_h3(#[trigger] list[i])) ==> (r matches AltSvc::Narrowed(t) && t@
            == written_alternatives(without_h3(list))),
{
    let value = written_alternatives(list);
    let all = texts(values@);
    alternatives_are_read_as_written(list);
    csp::lemma_alike_is_same_but_case(value, "clear"@);
    lemma_written_is_bare(list);
    csp::lemma_bare_is_trimmed(value);
    assert(all.last() == value);
    assert(all.drop_last() =~= seq![]);
    assert(all_alternatives(all.drop_last()) =~= seq![]);
    assert(all_alternatives(all) =~= list);
    lemma_kept_counts(list);
    let kept = without_h3(list);
    lemma_listed_is_written(kept);
    exactly_http3_is_removed(list);
    if exists|i: int| 0 <= i < list.len() && !is_h3(#[trigger] list[i]) {
        let i = choose|i: int| 0 <= i < list.len() && !is_h3(#[trigger] list[i]);
        assert(kept.contains(list[i]));
        assert(kept.len() > 0);
    }
}

proof fn lemma_written_is_bare(list: Seq<Seq<char>>)
    requires
        list.len() > 0,
        forall|i: int| 0 <= i < list.len() ==> is_alternative(#[trigger] list[i]),
    ensures
        csp::is_bare(written_alternatives(list)),
    decreases list.len(),
{
    assert(is_alternative(list[0]));
    if list.len() > 1 {
        let others = list.skip(1);
        assert forall|i: int| 0 <= i < others.len() implies is_alternative(#[trigger] others[i]) by {
            assert(others[i] == list[i + 1]);
        }
        lemma_written_is_bare(others);
        let s = written_alternatives(list);
        assert(s[0] == list[0][0]);
        assert(s.last() == written_alternatives(others).last());
    }
}

proof fn lemma_kept_counts(list: Seq<Seq<char>>)
    ensures
        without_h3(list).len() <= list.len(),
        without_h3(list).len() == list.len() <==> forall|i: int| 0 <= i < list.len() ==> !is_h3(#[trigger] list[i]),
        without_h3(list).len() == 0 <==> forall|i: int| 0 <= i < list.len() ==> is_h3(#[trigger] list[i]),
    decreases list.len(),
{
    if list.len() > 0 {
        let rest = list.drop_last();
        lemma_kept_counts(rest);
        assert forall|i: int| 0 <= i < rest.len() implies rest[i] == #[trigger] list[i] by {}
        if without_h3(rest).len() == rest.len() && !is_h3(list.last()) {
            assert forall|i: int| 0 <= i < list.len() implies !is_h3(#[trigger] list[i]) by {
                if i < rest.len() {
                    assert(!is_h3(rest[i]));
                }
            }
        }
        if without_h3(rest).len() == 0 && is_h3(list.last()) {
            assert forall|i: int| 0 <= i < list.len() implies is_h3(#[trigger] list[i]) by {
                if i < rest.len() {
                    assert(is_h3(rest[i]));
                }
            }
        }
        if forall|i: int| 0 <= i < list.len() ==> !is_h3(#[trigger] list[i]) {
            assert(!is_h3(list[list.len() - 1]));
            assert forall|i: int| 0 <= i < rest.len() implies !is_h3(#[trigger] rest[i]) by {
                assert(!is_h3(list[i]));
            }
        }
        if forall|i: int| 0 <= i < list.len() ==> is_h3(#[trigger] list[i]) {
            assert(is_h3(list[list.len() - 1]));
            assert forall|i: int| 0 <= i < rest.len() implies is_h3(#[trigger] rest[i]) by {
                assert(is_h3(list[i]));
            }
        }
    }
}

proof fn lemma_listed_is_written(list: Seq<Seq<char>>)
    ensures
        listed(list) == written_alternatives(list),
    decreases list.len(),
{
    reveal_strlit(", ");
    assert(", "@ =~= seq![',', ' ']);
    if list.len() > 1 {
        lemma_listed_is_written(list.drop_last());
        lemma_listed_is_written(list.skip(1));
        let front = list.drop_last();
        let rest = list.skip(1);
        assert(rest.last() == list.last());
        if list.len() == 2 {
            assert(front =~= seq![list[0]]);
            assert(rest =~= seq![list[1]]);
            assert(listed(list) =~= written_alternatives(list));
        } else {
            assert(front[0] == list[0]);
            assert(front.skip(1) =~= rest.drop_last());
            lemma_listed_is_written(rest.drop_last());
            assert(listed(list) =~= written_alternatives(list));
        }
    }
}

/// A response's alternatives are steered in place: where nothing was removed its
/// fields stay as they are; otherwise one field of that name is left, the last, and
/// every other field stays as it was and in order.
pub proof fn steering_touches_the_alternatives_only(block: &mut Vec<Field>, r: ())
    requires
        call_ensures(steer_response, (block,), r),
    ensures
        steered(field_texts(old(block)@, fields::ascii("alt-svc"@))) is Untouched ==> fields::block(final(block)@)
            == fields::block(old(block)@),
        !(steered(field_texts(old(block)@, fields::ascii("alt-svc"@))) is Untouched) ==> {
            let after = fields::block(final(block)@);
            &&& after.len() > 0
            &&& after.last().0 == fields::ascii("alt-svc"@)
            &&& after.drop_last() == csp::without(old(block)@, fields::ascii("alt-svc"@))
        },
        steered(field_texts(old(block)@, fields::ascii("alt-svc"@))) is Cleared ==> fields::block(
            final(block)@,
        ).last().1 == fields::ascii("clear"@),
        steered(field_texts(old(block)@, fields::ascii("alt-svc"@))) matches Steering::Narrowed(t) ==> (
        fields::block(final(block)@).last().1 == fields::ascii(t) || !csp::is_value(t)),
{
    let alt = fields::ascii("alt-svc"@);
    let kept = csp::without(old(block)@, alt);
    if let Some(t) = replacement(steered(field_texts(old(block)@, alt))) {
        assert(kept.push((alt, fields::ascii(t))).drop_last() =~= kept);
    }
}

/// Which fields cross a hop. Those that describe the hop itself never do. Those that
/// hand the connection over cross an upgrade only. Those that the connection's own
/// tokens name never do, but that the token that offers an upgrade names nothing on
/// one. Every other field crosses, with its value and in its place.
pub proof fn a_field_crosses_by_its_name(
    block: &mut Vec<Field>,
    handling: Handling,
    r: (),
    f: (Seq<u8>, Seq<u8>),
)
    requires
        call_ensures(strip_hop_by_hop, (block, handling), r),
    ensures
        fields::block(final(block)@).contains(f) ==> fields::block(old(block)@).contains(f),
        f.0 == fields::ascii("keep-alive"@) || f.0 == fields::ascii("proxy-authenticate"@) || f.0 == fields::ascii(
            "proxy-authorization"@,
        ) || f.0 == fields::ascii("te"@) || f.0 == fields::ascii("trailer"@) || f.0 == fields::ascii(
            "transfer-encoding"@,
        ) || f.0 == fields::ascii("content-length"@) ==> !fields::block(final(block)@).contains(f),
        handling == Handling::Ordinary && (f.0 == fields::ascii("connection"@) || f.0 == fields::ascii("upgrade"@))
            ==> !fields::block(final(block)@).contains(f),
        (exists|i: int|
            0 <= i < connection_tokens(old(block)@).len() && fields::ascii(
                name::lowered(#[trigger] connection_tokens(old(block)@)[i]),
            ) == f.0 && (handling == Handling::Ordinary || !csp::same_but_case(
                connection_tokens(old(block)@)[i],
                "upgrade"@,
            ))) ==> !fields::block(final(block)@).contains(f),
        fields::block(old(block)@).contains(f) && !fields::block(final(block)@).contains(f) ==> {
            ||| f.0 == fields::ascii("keep-alive"@)
            ||| f.0 == fields::ascii("proxy-authenticate"@)
            ||| f.0 == fields::ascii("proxy-authorization"@)
            ||| f.0 == fields::ascii("te"@)
            ||| f.0 == fields::ascii("trailer"@)
            ||| f.0 == fields::ascii("transfer-encoding"@)
            ||| f.0 == fields::ascii("content-length"@)
            ||| handling == Handling::Ordinary && (f.0 == fields::ascii("connection"@) || f.0 == fields::ascii(
                "upgrade"@,
            ))
            ||| exists|i: int|
                0 <= i < connection_tokens(old(block)@).len() && fields::ascii(
                    name::lowered(#[trigger] connection_tokens(old(block)@)[i]),
                ) == f.0 && (handling == Handling::Ordinary || !csp::same_but_case(
                    connection_tokens(old(block)@)[i],
                    "upgrade"@,
                ))
        },
{
    let all = fields::block(old(block)@);
    let tokens = connection_tokens(old(block)@);
    let kept = crossing(all, tokens, handling);
    exactly_the_discarded_fields_stay_behind(all, tokens, handling);
    lemma_crossing_was_there(all, tokens, handling);
    assert forall|i: int| 0 <= i < tokens.len() implies csp::alike(#[trigger] tokens[i], "upgrade"@)
        == csp::same_but_case(tokens[i], "upgrade"@) by {
        csp::lemma_alike_is_same_but_case(tokens[i], "upgrade"@);
    }
    if kept.contains(f) {
        let i = choose|i: int| 0 <= i < kept.len() && kept[i] == f;
        assert(!discarded(tokens, handling, kept[i].0));
        assert(all.contains(kept[i]));
    }
    if all.contains(f) && !kept.contains(f) {
        let i = choose|i: int| 0 <= i < all.len() && all[i] == f;
        assert(discarded(tokens, handling, all[i].0));
    }
}

proof fn lemma_crossing_was_there(block: Seq<(Seq<u8>, Seq<u8>)>, tokens: Seq<Seq<char>>, handling: Handling)
    ensures
        forall|i: int|
            0 <= i < crossing(block, tokens, handling).len() ==> block.contains(
                #[trigger] crossing(block, tokens, handling)[i],
            ),
    decreases block.len(),
{
    if block.len() > 0 {
        let rest = block.drop_last();
        lemma_crossing_was_there(rest, tokens, handling);
        let kept = crossing(rest, tokens, handling);
        let all = crossing(block, tokens, handling);
        assert forall|i: int| 0 <= i < all.len() implies block.contains(#[trigger] all[i]) by {
            if i < kept.len() {
                assert(all[i] == kept[i]);
                assert(rest.contains(kept[i]));
                let k = choose|k: int| 0 <= k < rest.len() && rest[k] == kept[i];
                assert(block[k] == all[i]);
            } else {
                assert(block[block.len() - 1] == all[i]);
            }
        }
    }
}

/// The tokens of a list are told apart by commas, white space round them aside.
pub proof fn commas_part_tokens(list: Seq<Seq<char>>, a: Seq<char>, b: Seq<char>)
    requires
        !b.contains(','),
    ensures
        tokens_of(list.push(b)) == tokens_of(list).push(text::trimmed(b)),
        tokens_of(list.push(a + seq![','] + b)) == tokens_of(list.push(a)).push(text::trimmed(b)),
        tokens_of(seq![]).len() == 0,
{
    text::separators_part_a_text(a, b, ',');
    let x = list.push(b);
    let y = list.push(a);
    let z = list.push(a + seq![','] + b);
    assert(x.drop_last() =~= list);
    assert(y.drop_last() =~= list);
    assert(z.drop_last() =~= list);
    assert(tokens_of(x) =~= tokens_of(list).push(text::trimmed(b)));
    assert(tokens_of(z) =~= tokens_of(y).push(text::trimmed(b)));
}

/// A request offers an upgrade exactly if its connection names the token, in
/// whatever case, and a field names the protocol.
pub proof fn an_upgrade_takes_a_token_and_a_field(block: &Vec<Field>, r: Handling)
    requires
        call_ensures(handling, (block,), r),
    ensures
        r == Handling::Upgrade <==> csp::lists(connection_tokens(block@), "upgrade"@) && exists|i: int|
            0 <= i < block@.len() && (#[trigger] block@[i]).0@ == fields::ascii("upgrade"@),
        r == Handling::Ordinary || r == Handling::Upgrade,
{
    csp::lemma_lists(connection_tokens(block@), "upgrade"@);
}

/// The texts of the fields of one name in two blocks one after the other are those of
/// each.
pub proof fn texts_are_taken_one_by_one(a: Seq<Field>, b: Seq<Field>, f: Field, wanted: Seq<u8>)
    ensures
        field_texts(a + b, wanted) == field_texts(a, wanted) + field_texts(b, wanted),
        f.0@ != wanted ==> field_texts(seq![f], wanted).len() == 0,
        f.0@ == wanted && csp::value_text(f.1@) is Some ==> field_texts(seq![f], wanted) == seq![
            csp::value_text(f.1@)->0,
        ],
    decreases b.len(),
{
    assert(seq![f].drop_last() =~= seq![]);
    assert(field_texts(seq![f].drop_last(), wanted) =~= seq![]);
    if f.0@ == wanted && csp::value_text(f.1@) is Some {
        assert(field_texts(seq![f], wanted) =~= seq![csp::value_text(f.1@)->0]);
    }
    if b.len() == 0 {
        assert(a + b =~= a);
        assert(field_texts(a, wanted) + field_texts(b, wanted) =~= field_texts(a, wanted));
    } else {
        texts_are_taken_one_by_one(a, b.drop_last(), f, wanted);
        assert((a + b).drop_last() =~= a + b.drop_last());
        assert(field_texts(a + b, wanted) =~= field_texts(a, wanted) + field_texts(b, wanted));
    }
}

/// A blocked request is answered 403 and goes nowhere, with its fields as they were;
/// any other goes to the origin, as an upgrade exactly where it offers one.
pub proof fn a_blocked_request_goes_nowhere(
    verdict: FilterVerdict,
    block: &mut Vec<Field>,
    r: RequestStep,
)
    requires
        call_ensures(take_request, (verdict, block), r),
    ensures
        verdict == FilterVerdict::Block <==> r == RequestStep::Refuse(403),
        verdict == FilterVerdict::Allow <==> r is Send,
        r is Refuse ==> *final(block) == *old(block),
        r matches RequestStep::Send(how) ==> (how == Handling::Upgrade <==> csp::lists(
            connection_tokens(old(block)@),
            "upgrade"@,
        ) && exists|i: int| 0 <= i < old(block)@.len() && (#[trigger] old(block)@[i]).0@ == fields::ascii("upgrade"@)),
{
    csp::lemma_lists(connection_tokens(old(block)@), "upgrade"@);
}

/// An origin that does not answer is a 502. Connections are handed over exactly where
/// an upgrade was offered and 101 agreed to it. Every other answer goes back.
pub proof fn connections_are_handed_over_where_both_agree(
    how: Handling,
    status: Option<u16>,
    block: &mut Vec<Field>,
    r: ResponseStep,
)
    requires
        call_ensures(take_response, (how, status, block), r),
    ensures
        status is None <==> r == ResponseStep::Fail(502),
        r == ResponseStep::Splice <==> how == Handling::Upgrade && status == Some(101u16),
        r == ResponseStep::Return <==> status is Some && !(how == Handling::Upgrade && status == Some(101u16)),
        r != ResponseStep::Return ==> *final(block) == *old(block),
{
}

/// How quotes and backslashes part a value. Outside quotes a comma parts, a quote opens and
/// a backslash is a character like any other; inside them nothing parts, a quote closes,
/// and a backslash takes the next character with it.
pub proof fn nothing_parts_inside_quotes(c: char, rest: Seq<char>, part: Seq<char>)
    ensures
        quoted_parts(seq![','] + rest, false, false, part) == seq![part] + quoted_parts(rest, false, false, seq![]),
        quoted_parts(seq!['"'] + rest, false, false, part) == quoted_parts(rest, true, false, part.push('"')),
        c != ',' && c != '"' ==> quoted_parts(seq![c] + rest, false, false, part) == quoted_parts(
            rest,
            false,
            false,
            part.push(c),
        ),
        quoted_parts(seq!['"'] + rest, true, false, part) == quoted_parts(rest, false, false, part.push('"')),
        c != '"' && c != '\\' ==> quoted_parts(seq![c] + rest, true, false, part) == quoted_parts(
            rest,
            true,
            false,
            part.push(c),
        ),
        quoted_parts(seq!['\\', c] + rest, true, false, part) == quoted_parts(
            rest,
            true,
            false,
            part.push('\\').push(c),
        ),
        quoted_parts(seq![], false, false, part) == seq![part],
{
    assert((seq![','] + rest).skip(1) =~= rest);
    assert((seq!['"'] + rest).skip(1) =~= rest);
    assert((seq![c] + rest).skip(1) =~= rest);
    let s = seq!['\\', c] + rest;
    assert(s.skip(1) =~= seq![c] + rest);
    assert(s[0] == '\\');
    assert((seq![c] + rest)[0] == c);
    assert(quoted_parts(s, true, false, part) == quoted_parts(seq![c] + rest, true, true, part.push('\\')));
}

} // verus!
