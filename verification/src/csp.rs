//! Content security policies: letting one inline stylesheet through, and
//! nothing else.

use vstd::prelude::*;
use vstd::slice::slice_subrange;

#[allow(unused_imports)]
use crate::fields;
use crate::fields::{bytes_of, Field};
use crate::hosts::slice_to_vec;
#[allow(unused_imports)]
use crate::name;
use crate::name::to_lower;
#[allow(unused_imports)]
use crate::text;
use crate::text::{
    chars_of, push_text, same_bytes, same_chars, split_chars, split_words, string_of, trim,
};

verus! {

/// What a policy permits for one inline stylesheet.
#[derive(Clone, Debug, PartialEq, Eq)]
pub enum InlineStyle {
    /// The policy already permits the stylesheet.
    Granted,
    /// The policy, widened by the stylesheet's hash.
    Widened(String),
    /// The policy forbids styles, so none is injected.
    Refused,
}

/// What a policy permits, over texts.
pub enum Style {
    Granted,
    Widened(Seq<char>),
    Refused,
}

pub open spec fn style_of(s: InlineStyle) -> Style {
    match s {
        InlineStyle::Granted => Style::Granted,
        InlineStyle::Widened(t) => Style::Widened(t@),
        InlineStyle::Refused => Style::Refused,
    }
}

/// The parts without white space at their ends, and without the empty ones.
pub open spec fn directives(parts: Seq<Seq<char>>) -> Seq<Seq<char>>
    decreases parts.len(),
{
    if parts.len() == 0 {
        seq![]
    } else {
        let before = directives(parts.drop_last());
        let d = text::trimmed(parts.last());
        if d.len() == 0 {
            before
        } else {
            before.push(d)
        }
    }
}

/// The directives of a policy.
pub open spec fn policy_directives(policy: Seq<char>) -> Seq<Seq<char>> {
    directives(text::split_at_each(policy, ';'))
}

/// Whether two texts differ in nothing but the case of ASCII letters.
pub open spec fn alike(a: Seq<char>, b: Seq<char>) -> bool {
    name::lowered(a) == name::lowered(b)
}

/// Whether a directive has this name.
pub open spec fn named(directive: Seq<char>, name: Seq<char>) -> bool {
    text::words(directive).len() > 0 && alike(text::words(directive)[0], name)
}

/// The first directive with this name.
pub open spec fn first_named(ds: Seq<Seq<char>>, name: Seq<char>) -> Option<int>
    decreases ds.len(),
{
    if ds.len() == 0 {
        None
    } else {
        match first_named(ds.drop_last(), name) {
            Some(i) => Some(i),
            None => if named(ds.last(), name) {
                Some(ds.len() - 1)
            } else {
                None
            },
        }
    }
}

/// The directive that governs a style element, the most specific first, and
/// whether it governs only as the fallback.
pub open spec fn governing(ds: Seq<Seq<char>>) -> Option<(int, bool)> {
    match first_named(ds, "style-src-elem"@) {
        Some(i) => Some((i, false)),
        None => match first_named(ds, "style-src"@) {
            Some(i) => Some((i, false)),
            None => match first_named(ds, "default-src"@) {
                Some(i) => Some((i, true)),
                None => None,
            },
        },
    }
}

/// The sources of a directive.
pub open spec fn sources(directive: Seq<char>) -> Seq<Seq<char>> {
    let w = text::words(directive);
    if w.len() == 0 {
        seq![]
    } else {
        w.skip(1)
    }
}

/// `s` without the quotes it starts with.
pub open spec fn unquoted(s: Seq<char>) -> Seq<char>
    decreases s.len(),
{
    if s.len() > 0 && s[0] == '\'' {
        unquoted(s.skip(1))
    } else {
        s
    }
}

/// Whether `s` starts with `prefix`, case aside, and goes on after it.
pub open spec fn extends(s: Seq<char>, prefix: Seq<char>) -> bool {
    s.len() > prefix.len() && alike(s.take(prefix.len() as int), prefix)
}

/// Whether a source names a nonce or a hash, beside which `'unsafe-inline'`
/// has no effect.
pub open spec fn binds(source: Seq<char>) -> bool {
    let s = unquoted(source);
    extends(s, "nonce-"@) || extends(s, "sha256-"@) || extends(s, "sha384-"@) || extends(
        s,
        "sha512-"@,
    )
}

/// Whether one of the sources is `word`, case aside.
pub open spec fn has_word(list: Seq<Seq<char>>, word: Seq<char>) -> bool {
    exists|i: int| 0 <= i < list.len() && alike(#[trigger] list[i], word)
}

/// Whether one of the sources names a nonce or a hash.
pub open spec fn is_bound(list: Seq<Seq<char>>) -> bool {
    exists|i: int| 0 <= i < list.len() && binds(#[trigger] list[i])
}

/// The texts with a space before each.
pub open spec fn spaced(list: Seq<Seq<char>>) -> Seq<char>
    decreases list.len(),
{
    if list.len() == 0 {
        seq![]
    } else {
        spaced(list.drop_last()) + " "@ + list.last()
    }
}

/// The directives as a policy.
pub open spec fn joined(ds: Seq<Seq<char>>) -> Seq<char>
    decreases ds.len(),
{
    if ds.len() == 0 {
        seq![]
    } else if ds.len() == 1 {
        ds[0]
    } else {
        joined(ds.drop_last()) + "; "@ + ds.last()
    }
}

/// The directives with `source` let through for styles: added to the directive
/// that governs them, or to a copy of the fallback that governs only them.
pub open spec fn widened(
    ds: Seq<Seq<char>>,
    index: int,
    inherited: bool,
    source: Seq<char>,
) -> Seq<Seq<char>> {
    if inherited {
        ds.push("style-src"@ + spaced(sources(ds[index]).push(source)))
    } else {
        ds.update(index, ds[index] + " "@ + source)
    }
}

/// What a policy permits for the stylesheet that `source` names.
pub open spec fn permitted(policy: Seq<char>, source: Seq<char>) -> Style {
    let ds = policy_directives(policy);
    match governing(ds) {
        None => Style::Granted,
        Some((index, inherited)) => {
            let list = sources(ds[index]);
            if has_word(list, "'none'"@) {
                Style::Refused
            } else if list.contains(source) {
                Style::Granted
            } else if !is_bound(list) && has_word(list, "'unsafe-inline'"@) {
                Style::Granted
            } else {
                Style::Widened(joined(widened(ds, index, inherited, source)))
            }
        },
    }
}

pub fn is_alike(a: &[char], b: &[char]) -> (r: bool)
    ensures
        r == alike(a@, b@),
{
    let n: usize = a.len();
    if n != b.len() {
        assert(name::lowered(a@).len() == a@.len() && name::lowered(b@).len() == b@.len());
        return false;
    }
    let mut i: usize = 0;
    while i < n
        invariant
            i <= n,
            n == a@.len(),
            n == b@.len(),
            forall|j: int| 0 <= j < i ==> text::lower(#[trigger] a@[j]) == text::lower(b@[j]),
        decreases n - i,
    {
        if to_lower(a[i]) != to_lower(b[i]) {
            assert(name::lowered(a@)[i as int] != name::lowered(b@)[i as int]);
            return false;
        }
        i += 1;
    }
    assert(name::lowered(a@) =~= name::lowered(b@));
    true
}

fn read_directives(policy: &[char]) -> (r: Vec<Vec<char>>)
    ensures
        text::views(r@) == policy_directives(policy@),
{
    let parts: Vec<Vec<char>> = split_chars(policy, ';');
    let n: usize = parts.len();
    let ghost all = text::views(parts@);
    let mut r: Vec<Vec<char>> = Vec::new();
    let mut i: usize = 0;
    assert(all.take(0) =~= seq![]);
    assert(text::views(r@) =~= seq![]);
    while i < n
        invariant
            i <= n,
            n == parts@.len(),
            all == text::views(parts@),
            text::views(r@) == directives(all.take(i as int)),
        decreases n - i,
    {
        proof {
            assert(all.take(i + 1).drop_last() =~= all.take(i as int));
            assert(all.take(i + 1).last() == parts@[i as int]@);
        }
        let d: &[char] = trim(parts[i].as_slice());
        if d.len() > 0 {
            let ghost before = r@;
            r.push(slice_to_vec(d));
            assert(text::views(r@) =~= text::views(before).push(d@));
        }
        i += 1;
    }
    assert(all.take(n as int) =~= all);
    r
}

fn is_named(directive: &[char], wanted: &str) -> (r: bool)
    ensures
        r == named(directive@, wanted@),
{
    let words: Vec<Vec<char>> = split_words(directive);
    assert(text::views(words@).len() == words@.len());
    if words.len() == 0 {
        return false;
    }
    assert(text::words(directive@)[0] == words@[0]@);
    let wanted: Vec<char> = chars_of(wanted);
    is_alike(words[0].as_slice(), wanted.as_slice())
}

fn position(ds: &Vec<Vec<char>>, wanted: &str) -> (r: Option<usize>)
    ensures
        match r {
            Some(i) => first_named(text::views(ds@), wanted@) == Some(i as int) && i < ds@.len(),
            None => first_named(text::views(ds@), wanted@) is None,
        },
{
    let n: usize = ds.len();
    let ghost all = text::views(ds@);
    let mut i: usize = 0;
    while i < n
        invariant
            i <= n,
            n == ds@.len(),
            all == text::views(ds@),
            first_named(all.take(i as int), wanted@) is None,
        decreases n - i,
    {
        proof {
            assert(all.take(i + 1).drop_last() =~= all.take(i as int));
            assert(all.take(i + 1).last() == ds@[i as int]@);
        }
        if is_named(ds[i].as_slice(), wanted) {
            proof {
                lemma_first_named_stays(all, wanted@, i + 1);
            }
            return Some(i);
        }
        i += 1;
    }
    assert(all.take(n as int) =~= all);
    None
}

proof fn lemma_first_named_stays(ds: Seq<Seq<char>>, wanted: Seq<char>, i: int)
    requires
        0 <= i <= ds.len(),
        first_named(ds.take(i), wanted) is Some,
    ensures
        first_named(ds, wanted) == first_named(ds.take(i), wanted),
    decreases ds.len() - i,
{
    if i < ds.len() {
        assert(ds.take(i + 1).drop_last() =~= ds.take(i));
        lemma_first_named_stays(ds, wanted, i + 1);
    } else {
        assert(ds.take(i) =~= ds);
    }
}

fn read_sources(directive: &[char]) -> (r: Vec<Vec<char>>)
    ensures
        text::views(r@) == sources(directive@),
{
    let mut words: Vec<Vec<char>> = split_words(directive);
    let ghost all = words@;
    assert(text::views(all).len() == all.len());
    if words.len() > 0 {
        words.remove(0);
        assert(text::views(words@) =~= text::views(all).skip(1));
    } else {
        assert(text::views(words@) =~= seq![]);
    }
    words
}

fn starts_alike(s: &[char], prefix: &str) -> (r: bool)
    ensures
        r == extends(s@, prefix@),
{
    let p: Vec<char> = chars_of(prefix);
    if s.len() <= p.len() {
        return false;
    }
    let head: &[char] = slice_subrange(s, 0, p.len());
    assert(head@ =~= s@.take(p@.len() as int));
    is_alike(head, p.as_slice())
}

fn is_nonce_or_hash(source: &[char]) -> (r: bool)
    ensures
        r == binds(source@),
{
    let n: usize = source.len();
    let mut i: usize = 0;
    assert(source@.skip(0) =~= source@);
    while i < n && source[i] == '\''
        invariant
            i <= n,
            n == source@.len(),
            unquoted(source@.skip(i as int)) == unquoted(source@),
        decreases n - i,
    {
        assert(source@.skip(i as int).skip(1) =~= source@.skip(i + 1));
        i += 1;
    }
    let s: &[char] = slice_subrange(source, i, n);
    assert(s@ =~= source@.skip(i as int));
    starts_alike(s, "nonce-") || starts_alike(s, "sha256-") || starts_alike(s, "sha384-")
        || starts_alike(s, "sha512-")
}

pub fn any_word(list: &Vec<Vec<char>>, word: &str) -> (r: bool)
    ensures
        r == has_word(text::views(list@), word@),
{
    let letters: Vec<char> = chars_of(word);
    let n: usize = list.len();
    let ghost all = text::views(list@);
    let mut i: usize = 0;
    while i < n
        invariant
            i <= n,
            n == list@.len(),
            all == text::views(list@),
            letters@ == word@,
            forall|j: int| 0 <= j < i ==> !alike(#[trigger] all[j], word@),
        decreases n - i,
    {
        assert(all[i as int] == list@[i as int]@);
        if is_alike(list[i].as_slice(), letters.as_slice()) {
            assert(alike(all[i as int], word@));
            return true;
        }
        i += 1;
    }
    false
}

fn any_binds(list: &Vec<Vec<char>>) -> (r: bool)
    ensures
        r == is_bound(text::views(list@)),
{
    let n: usize = list.len();
    let ghost all = text::views(list@);
    let mut i: usize = 0;
    while i < n
        invariant
            i <= n,
            n == list@.len(),
            all == text::views(list@),
            forall|j: int| 0 <= j < i ==> !binds(#[trigger] all[j]),
        decreases n - i,
    {
        assert(all[i as int] == list@[i as int]@);
        if is_nonce_or_hash(list[i].as_slice()) {
            assert(binds(all[i as int]));
            return true;
        }
        i += 1;
    }
    false
}

fn has_source(list: &Vec<Vec<char>>, source: &[char]) -> (r: bool)
    ensures
        r == text::views(list@).contains(source@),
{
    let n: usize = list.len();
    let ghost all = text::views(list@);
    let mut i: usize = 0;
    while i < n
        invariant
            i <= n,
            n == list@.len(),
            all == text::views(list@),
            forall|j: int| 0 <= j < i ==> all[j] != source@,
        decreases n - i,
    {
        assert(all[i as int] == list@[i as int]@);
        if same_chars(list[i].as_slice(), source) {
            assert(all[i as int] == source@);
            return true;
        }
        i += 1;
    }
    false
}

fn extend_chars(into: &mut Vec<char>, more: &[char])
    ensures
        final(into)@ == old(into)@ + more@,
{
    let n: usize = more.len();
    let mut i: usize = 0;
    let ghost before = into@;
    assert(into@ =~= before + more@.take(0));
    while i < n
        invariant
            i <= n,
            n == more@.len(),
            into@ == before + more@.take(i as int),
        decreases n - i,
    {
        into.push(more[i]);
        assert(into@ =~= before + more@.take(i + 1));
        i += 1;
    }
    assert(more@.take(n as int) =~= more@);
}

/// `style-src` with the sources and one more.
fn narrower_directive(list: &Vec<Vec<char>>, source: &[char]) -> (r: Vec<char>)
    ensures
        r@ == "style-src"@ + spaced(text::views(list@).push(source@)),
{
    let mut r: Vec<char> = chars_of("style-src");
    let ghost head = r@;
    let ghost all = text::views(list@);
    let n: usize = list.len();
    let mut i: usize = 0;
    proof {
        reveal_strlit(" ");
        assert(all.take(0) =~= seq![]);
        assert(r@ =~= head + spaced(all.take(0)));
    }
    while i < n
        invariant
            i <= n,
            n == list@.len(),
            all == text::views(list@),
            " "@ == seq![' '],
            r@ == head + spaced(all.take(i as int)),
        decreases n - i,
    {
        r.push(' ');
        extend_chars(&mut r, list[i].as_slice());
        proof {
            assert(all.take(i + 1).drop_last() =~= all.take(i as int));
            assert(all.take(i + 1).last() == list@[i as int]@);
            assert(r@ =~= head + spaced(all.take(i + 1)));
        }
        i += 1;
    }
    r.push(' ');
    extend_chars(&mut r, source);
    proof {
        assert(all.take(n as int) =~= all);
        assert(all.push(source@).drop_last() =~= all);
        assert(r@ =~= head + spaced(all.push(source@)));
    }
    r
}

fn join_directives(ds: &Vec<Vec<char>>) -> (r: String)
    ensures
        r@ == joined(text::views(ds@)),
{
    let ghost all = text::views(ds@);
    let mut r = String::new();
    let n: usize = ds.len();
    let mut i: usize = 0;
    assert(all.take(0) =~= seq![]);
    assert(r@ =~= seq![]);
    while i < n
        invariant
            i <= n,
            n == ds@.len(),
            all == text::views(ds@),
            r@ == joined(all.take(i as int)),
        decreases n - i,
    {
        if i > 0 {
            push_text(&mut r, "; ");
        }
        let part: String = string_of(ds[i].as_slice());
        push_text(&mut r, part.as_str());
        proof {
            assert(all.take(i + 1).drop_last() =~= all.take(i as int));
            assert(all.take(i + 1).last() == ds@[i as int]@);
            assert(r@ =~= joined(all.take(i + 1)));
        }
        i += 1;
    }
    assert(all.take(n as int) =~= all);
    r
}

fn find_governing(ds: &Vec<Vec<char>>) -> (r: Option<(usize, bool)>)
    ensures
        match r {
            Some((i, inherited)) => governing(text::views(ds@)) == Some((i as int, inherited)) && i
                < ds@.len(),
            None => governing(text::views(ds@)) is None,
        },
{
    match position(ds, "style-src-elem") {
        Some(i) => Some((i, false)),
        None => match position(ds, "style-src") {
            Some(i) => Some((i, false)),
            None => match position(ds, "default-src") {
                Some(i) => Some((i, true)),
                None => None,
            },
        },
    }
}

fn permit(policy: &[char], source: &[char]) -> (r: InlineStyle)
    ensures
        style_of(r) == permitted(policy@, source@),
{
    let mut ds: Vec<Vec<char>> = read_directives(policy);
    let ghost all = text::views(ds@);
    let (index, inherited): (usize, bool) = match find_governing(&ds) {
        Some(found) => found,
        None => {
            return InlineStyle::Granted;
        },
    };
    assert(all[index as int] == ds@[index as int]@);
    let list: Vec<Vec<char>> = read_sources(ds[index].as_slice());
    if any_word(&list, "'none'") {
        return InlineStyle::Refused;
    }
    if has_source(&list, source) {
        return InlineStyle::Granted;
    }
    if !any_binds(&list) && any_word(&list, "'unsafe-inline'") {
        return InlineStyle::Granted;
    }
    let ghost before = ds@;
    if inherited {
        ds.push(narrower_directive(&list, source));
        assert(text::views(ds@) =~= widened(all, index as int, inherited, source@));
    } else {
        let mut d: Vec<char> = slice_to_vec(ds[index].as_slice());
        d.push(' ');
        extend_chars(&mut d, source);
        proof {
            reveal_strlit(" ");
            assert(d@ =~= all[index as int] + " "@ + source@);
        }
        ds.set(index, d);
        assert(text::views(ds@) =~= widened(all, index as int, inherited, source@));
    }
    InlineStyle::Widened(join_directives(&ds))
}

/// Widens `policy` by exactly `source`, or says why it need not or cannot be.
pub fn permit_inline_style(policy: &str, source: &str) -> (r: InlineStyle)
    ensures
        style_of(r) == permitted(policy@, source@),
{
    let policy: Vec<char> = chars_of(policy);
    let source: Vec<char> = chars_of(source);
    permit(policy.as_slice(), source.as_slice())
}

/// Widening keeps every directive as it is but for the one addition: the
/// governing directive is continued by the source, or, where only the fallback
/// governs, the fallback stays and one directive for styles follows.
pub proof fn widening_only_inserts(
    ds: Seq<Seq<char>>,
    index: int,
    inherited: bool,
    source: Seq<char>,
)
    requires
        governing(ds) == Some((index, inherited)),
    ensures
        0 <= index < ds.len(),
        widened(ds, index, inherited, source).len() == ds.len() + (if inherited {
            1int
        } else {
            0
        }),
        forall|i: int|
            0 <= i < ds.len() && (inherited || i != index) ==> #[trigger] widened(
                ds,
                index,
                inherited,
                source,
            )[i] == ds[i],
        !inherited ==> widened(ds, index, inherited, source)[index] == ds[index] + " "@ + source,
{
    lemma_first_named(ds, "style-src-elem"@);
    lemma_first_named(ds, "style-src"@);
    lemma_first_named(ds, "default-src"@);
}

proof fn lemma_first_named(ds: Seq<Seq<char>>, wanted: Seq<char>)
    ensures
        first_named(ds, wanted) matches Some(i) ==> 0 <= i < ds.len(),
    decreases ds.len(),
{
    if ds.len() > 0 {
        lemma_first_named(ds.drop_last(), wanted);
    }
}

/// `content-security-policy`, in bytes. Report-only policies block nothing and
/// are left alone.
pub open spec fn csp_name() -> Seq<u8> {
    fields::ascii("content-security-policy"@)
}

/// Whether a byte may stand in a header value that reads as text.
pub open spec fn is_visible(b: u8) -> bool {
    32 <= b < 127 || b == 9
}

/// The text of a header value, if it reads as text.
pub open spec fn value_text(value: Seq<u8>) -> Option<Seq<char>> {
    if forall|i: int| 0 <= i < value.len() ==> is_visible(#[trigger] value[i]) {
        Some(Seq::new(value.len(), |i: int| value[i] as char))
    } else {
        None
    }
}

pub fn read_value(value: &[u8]) -> (r: Option<Vec<char>>)
    ensures
        match r {
            Some(chars) => value_text(value@) == Some(chars@),
            None => value_text(value@) is None,
        },
{
    let mut chars: Vec<char> = Vec::new();
    let n: usize = value.len();
    let mut i: usize = 0;
    while i < n
        invariant
            i <= n,
            n == value@.len(),
            chars@.len() == i,
            forall|j: int| 0 <= j < i ==> is_visible(#[trigger] value@[j]),
            forall|j: int| 0 <= j < i ==> chars@[j] == value@[j] as char,
        decreases n - i,
    {
        let b: u8 = value[i];
        if !((32 <= b && b < 127) || b == 9) {
            assert(!is_visible(value@[i as int]));
            return None;
        }
        chars.push(b as char);
        i += 1;
    }
    assert(chars@ =~= Seq::new(value@.len(), |i: int| value@[i] as char));
    Some(chars)
}

/// The policies of a header block that read as text, in order.
pub open spec fn policies(block: Seq<Field>) -> Seq<Seq<char>>
    decreases block.len(),
{
    if block.len() == 0 {
        seq![]
    } else {
        let before = policies(block.drop_last());
        if block.last().0@ == csp_name() {
            match value_text(block.last().1@) {
                Some(t) => before.push(t),
                None => before,
            }
        } else {
            before
        }
    }
}

/// A policy as it goes on: widened where it has to be.
pub open spec fn relaxed_one(policy: Seq<char>, source: Seq<char>) -> Seq<char> {
    match permitted(policy, source) {
        Style::Widened(t) => t,
        _ => policy,
    }
}

/// Whether a text may be a header value.
pub open spec fn is_value(t: Seq<char>) -> bool {
    forall|i: int| 0 <= i < t.len() ==> (32 <= (#[trigger] t[i]) as u32 && (t[i] as u32) < 127)
        || t[i] as u32 == 9
}

/// A header block without the fields of one name.
pub open spec fn without(block: Seq<Field>, name: Seq<u8>) -> Seq<(Seq<u8>, Seq<u8>)>
    decreases block.len(),
{
    if block.len() == 0 {
        seq![]
    } else if block.last().0@ == name {
        without(block.drop_last(), name)
    } else {
        without(block.drop_last(), name).push((block.last().0@, block.last().1@))
    }
}

/// The policies as fields.
pub open spec fn policy_fields(list: Seq<Seq<char>>, source: Seq<char>) -> Seq<
    (Seq<u8>, Seq<u8>),
> {
    Seq::new(list.len(), |i: int| (csp_name(), fields::ascii(relaxed_one(list[i], source))))
}

/// Whether every policy can go on as a header value.
pub open spec fn rebuildable(list: Seq<Seq<char>>, source: Seq<char>) -> bool {
    forall|i: int| 0 <= i < list.len() ==> is_value(relaxed_one(#[trigger] list[i], source))
}

/// Whether no policy refuses styles.
pub open spec fn none_refuses(list: Seq<Seq<char>>, source: Seq<char>) -> bool {
    forall|i: int| 0 <= i < list.len() ==> !(permitted(#[trigger] list[i], source) is Refused)
}

pub fn text_is_value(t: &[char]) -> (r: bool)
    ensures
        r == is_value(t@),
{
    let n: usize = t.len();
    let mut i: usize = 0;
    while i < n
        invariant
            i <= n,
            n == t@.len(),
            forall|j: int|
                0 <= j < i ==> (32 <= (#[trigger] t@[j]) as u32 && (t@[j] as u32) < 127) || t@[j]
                    as u32 == 9,
        decreases n - i,
    {
        let c: u32 = t[i] as u32;
        if !((32 <= c && c < 127) || c == 9) {
            assert(!is_value(t@)) by {
                let x = t@[i as int];
            }
            return false;
        }
        i += 1;
    }
    true
}

pub fn drop_fields(block: &Vec<Field>, unwanted: &[u8]) -> (r: Vec<Field>)
    ensures
        fields::block(r@) == without(block@, unwanted@),
{
    let mut r: Vec<Field> = Vec::new();
    let n: usize = block.len();
    let mut i: usize = 0;
    assert(block@.take(0) =~= seq![]);
    assert(fields::block(r@) =~= seq![]);
    while i < n
        invariant
            i <= n,
            n == block@.len(),
            fields::block(r@) == without(block@.take(i as int), unwanted@),
        decreases n - i,
    {
        assert(block@.take(i + 1).drop_last() =~= block@.take(i as int));
        if !same_bytes(block[i].0.as_slice(), unwanted) {
            let ghost before = r@;
            let copy: Field = (bytes_of(block[i].0.as_slice()), bytes_of(block[i].1.as_slice()));
            r.push(copy);
            assert(fields::block(r@) =~= fields::block(before).push((copy.0@, copy.1@)));
        }
        i += 1;
    }
    assert(block@.take(n as int) =~= block@);
    r
}

fn read_policies(block: &Vec<Field>) -> (r: Vec<Vec<char>>)
    ensures
        text::views(r@) == policies(block@),
{
    let wanted: &[u8] = "content-security-policy".as_bytes();
    let mut r: Vec<Vec<char>> = Vec::new();
    let n: usize = block.len();
    let mut i: usize = 0;
    assert(block@.take(0) =~= seq![]);
    assert(text::views(r@) =~= seq![]);
    while i < n
        invariant
            i <= n,
            n == block@.len(),
            wanted@ == csp_name(),
            text::views(r@) == policies(block@.take(i as int)),
        decreases n - i,
    {
        assert(block@.take(i + 1).drop_last() =~= block@.take(i as int));
        if same_bytes(block[i].0.as_slice(), wanted) {
            match read_value(block[i].1.as_slice()) {
                Some(chars) => {
                    let ghost before = r@;
                    r.push(chars);
                    assert(text::views(r@) =~= text::views(before).push(chars@));
                },
                None => {},
            }
        }
        i += 1;
    }
    assert(block@.take(n as int) =~= block@);
    r
}

/// Widens every policy of a header block by `source`, and says whether the
/// stylesheet may be injected. Policies intersect, so one refusal is enough to
/// say no; a policy that cannot go on as a header value leaves the block as it
/// is, and says no.
pub fn relax_policy(block: &mut Vec<Field>, source: &str) -> (inject: bool)
    ensures
        ({
            let list = policies(old(block)@);
            if list.len() == 0 {
                inject && *final(block) == *old(block)
            } else if !rebuildable(list, source@) {
                !inject && *final(block) == *old(block)
            } else {
                inject == none_refuses(list, source@) && fields::block(final(block)@) == without(
                    old(block)@,
                    csp_name(),
                ) + policy_fields(list, source@)
            }
        }),
{
    let list: Vec<Vec<char>> = read_policies(block);
    let ghost all = text::views(list@);
    let n: usize = list.len();
    assert(all.len() == n);
    if n == 0 {
        return true;
    }
    let letters: Vec<char> = chars_of(source);
    let mut inject: bool = true;
    let mut rebuilt: Vec<Field> = Vec::new();
    let mut i: usize = 0;
    assert(fields::block(rebuilt@) =~= policy_fields(all, source@).take(0));
    while i < n
        invariant
            i <= n,
            n == list@.len(),
            all == text::views(list@),
            all == policies(old(block)@),
            n > 0,
            letters@ == source@,
            *block == *old(block),
            inject == (forall|j: int|
                0 <= j < i ==> !(permitted(#[trigger] all[j], source@) is Refused)),
            forall|j: int| 0 <= j < i ==> is_value(relaxed_one(#[trigger] all[j], source@)),
            fields::block(rebuilt@) == policy_fields(all, source@).take(i as int),
        decreases n - i,
    {
        assert(all[i as int] == list@[i as int]@);
        let value: String = match permit(list[i].as_slice(), letters.as_slice()) {
            InlineStyle::Granted => string_of(list[i].as_slice()),
            InlineStyle::Widened(value) => value,
            InlineStyle::Refused => {
                inject = false;
                string_of(list[i].as_slice())
            },
        };
        assert(value@ == relaxed_one(all[i as int], source@));
        let chars: Vec<char> = chars_of(value.as_str());
        if !text_is_value(chars.as_slice()) {
            assert(!is_value(relaxed_one(all[i as int], source@)));
            return false;
        }
        let ghost before = rebuilt@;
        let one: Field = (
            bytes_of("content-security-policy".as_bytes()),
            bytes_of(value.as_str().as_bytes()),
        );
        rebuilt.push(one);
        proof {
            assert(fields::block(rebuilt@) =~= fields::block(before).push((one.0@, one.1@)));
            assert(fields::block(rebuilt@) =~= policy_fields(all, source@).take(i + 1));
        }
        i += 1;
    }
    let mut kept: Vec<Field> = drop_fields(block, "content-security-policy".as_bytes());
    let ghost head = kept@;
    let ghost tail = rebuilt@;
    kept.append(&mut rebuilt);
    proof {
        assert(kept@ =~= head + tail);
        assert(fields::block(kept@) =~= fields::block(head) + fields::block(tail));
        assert(policy_fields(all, source@).take(n as int) =~= policy_fields(all, source@));
    }
    *block = kept;
    inject
}

/// Whether `s` is not empty and has no white space at its ends.
pub open spec fn is_bare(s: Seq<char>) -> bool {
    s.len() > 0 && !text::is_space(s[0]) && !text::is_space(s.last())
}

/// Whether `s` is one word of a directive.
pub open spec fn is_word(s: Seq<char>) -> bool {
    s.len() > 0 && forall|i: int| 0 <= i < s.len() ==> !text::is_space(#[trigger] s[i]) && s[i]
        != ';'
}

proof fn lemma_trimmed_is_bare(s: Seq<char>)
    ensures
        text::trimmed(s).len() > 0 ==> is_bare(text::trimmed(s)),
        forall|c: char| !s.contains(c) ==> !#[trigger] text::trimmed(s).contains(c),
{
    let t = text::trimmed_start(s);
    text::lemma_trimmed_start_suffix(s);
    text::lemma_trimmed_end(t);
    let u = text::trimmed(s);
    assert forall|c: char| !s.contains(c) implies !#[trigger] u.contains(c) by {
        if u.contains(c) {
            let i = choose|i: int| 0 <= i < u.len() && u[i] == c;
            assert(t[i] == c);
            assert(s[s.len() - t.len() + i] == c);
        }
    }
}

pub proof fn lemma_bare_is_trimmed(s: Seq<char>)
    requires
        is_bare(s),
    ensures
        text::trimmed(s) == s,
        text::trimmed(seq![' '] + s) == s,
{
    let t = seq![' '] + s;
    assert(t.skip(1) =~= s);
    assert(text::trimmed_start(t) == text::trimmed_start(s));
}

/// What reads back from a policy: no semicolon, and bare.
pub open spec fn reads_back(ds: Seq<Seq<char>>) -> bool {
    forall|i: int| 0 <= i < ds.len() ==> is_bare(#[trigger] ds[i]) && !ds[i].contains(';')
}

/// A policy of directives reads back as those directives.
proof fn lemma_reads_back(ds: Seq<Seq<char>>)
    requires
        reads_back(ds),
    ensures
        policy_directives(joined(ds)) == ds,
    decreases ds.len(),
{
    reveal_strlit("; ");
    if ds.len() == 0 {
        assert(joined(ds) =~= seq![]);
        let parts = text::split_at_each(joined(ds), ';');
        assert(parts =~= seq![joined(ds)]);
        assert(parts.drop_last() =~= seq![]);
        assert(text::trimmed(joined(ds)).len() == 0) by {
            text::lemma_trimmed_start_suffix(joined(ds));
            text::lemma_trimmed_end(text::trimmed_start(joined(ds)));
        }
        assert(directives(parts.drop_last()) =~= seq![]);
        assert(ds =~= seq![]);
    } else if ds.len() == 1 {
        let d = ds[0];
        assert forall|i: int| 0 <= i < d.len() implies d[i] != ';' by {
            assert(d.contains(d[i]));
        }
        text::lemma_until_is(d, ';', d.len() as int);
        let parts = text::split_at_each(d, ';');
        assert(parts =~= seq![d]);
        assert(parts.drop_last() =~= seq![]);
        lemma_bare_is_trimmed(d);
        assert(directives(parts.drop_last()) =~= seq![]);
        assert(directives(parts) =~= seq![d]);
        assert(ds =~= seq![d]);
    } else {
        let rest = ds.drop_last();
        let d = ds.last();
        assert forall|i: int| 0 <= i < rest.len() implies is_bare(#[trigger] rest[i])
            && !rest[i].contains(';') by {
            assert(rest[i] == ds[i]);
        }
        lemma_reads_back(rest);
        assert(is_bare(ds[ds.len() - 1]));
        let y = seq![' '] + d;
        assert(!y.contains(';')) by {
            if y.contains(';') {
                let i = choose|i: int| 0 <= i < y.len() && y[i] == ';';
                assert(d[i - 1] == ';');
                assert(d.contains(';'));
            }
        }
        assert("; "@ =~= seq![';', ' ']);
        assert(joined(ds) =~= joined(rest) + seq![';'] + y);
        text::lemma_split_push(joined(rest), y, ';');
        let parts = text::split_at_each(joined(rest), ';');
        assert(parts.push(y).drop_last() =~= parts);
        lemma_bare_is_trimmed(d);
        assert(directives(parts.push(y)) =~= rest.push(d));
        assert(ds =~= rest.push(d));
    }
}

proof fn lemma_directives_read_back(parts: Seq<Seq<char>>)
    requires
        forall|i: int| 0 <= i < parts.len() ==> !(#[trigger] parts[i]).contains(';'),
    ensures
        reads_back(directives(parts)),
    decreases parts.len(),
{
    if parts.len() > 0 {
        let rest = parts.drop_last();
        assert forall|i: int| 0 <= i < rest.len() implies !(#[trigger] rest[i]).contains(';') by {
            assert(rest[i] == parts[i]);
        }
        lemma_directives_read_back(rest);
        lemma_trimmed_is_bare(parts.last());
        assert(!parts[parts.len() - 1].contains(';'));
    }
}

proof fn lemma_one_word(w: Seq<char>)
    requires
        is_word(w),
    ensures
        text::words(w) == seq![w],
{
    text::lemma_word_len_all(w);
    let n = w.len() as int;
    assert(w.take(n) =~= w);
    assert(w.skip(n) =~= seq![]);
    assert(!text::is_space(w[0]));
    assert(text::words(w.skip(n)) =~= seq![]);
    assert(text::words(w) =~= seq![w]);
}

proof fn lemma_words_are_words(s: Seq<char>)
    requires
        !s.contains(';'),
    ensures
        forall|i: int| 0 <= i < text::words(s).len() ==> is_word(#[trigger] text::words(s)[i]),
    decreases s.len(),
{
    text::lemma_trimmed_start_suffix(s);
    let t = text::trimmed_start(s);
    if t.len() > 0 {
        text::lemma_word_len_clean(t);
        let k = text::word_len(t) as int;
        let w = t.take(k);
        let rest = t.skip(k);
        assert forall|i: int| 0 <= i < t.len() implies t[i] != ';' by {
            assert(s[s.len() - t.len() + i] == t[i]);
            assert(s.contains(t[i]));
        }
        assert(k > 0);
        assert forall|i: int| 0 <= i < w.len() implies !text::is_space(#[trigger] w[i]) && w[i]
            != ';' by {
            assert(w[i] == t[i]);
        }
        assert(!rest.contains(';')) by {
            if rest.contains(';') {
                let i = choose|i: int| 0 <= i < rest.len() && rest[i] == ';';
                assert(t[k + i] == ';');
            }
        }
        lemma_words_are_words(rest);
        let all = text::words(s);
        assert(all == seq![w] + text::words(rest));
        assert forall|i: int| 0 <= i < all.len() implies is_word(#[trigger] all[i]) by {
            if i > 0 {
                assert(all[i] == text::words(rest)[i - 1]);
            }
        }
    }
}

proof fn lemma_spaced_words(head: Seq<char>, list: Seq<Seq<char>>)
    requires
        is_word(head),
        forall|i: int| 0 <= i < list.len() ==> is_word(#[trigger] list[i]),
    ensures
        text::words(head + spaced(list)) == seq![head] + list,
        is_bare(head + spaced(list)),
        !(head + spaced(list)).contains(';'),
    decreases list.len(),
{
    reveal_strlit(" ");
    assert(" "@ =~= seq![' ']);
    if list.len() == 0 {
        assert(head + spaced(list) =~= head);
        lemma_one_word(head);
        assert(seq![head] + list =~= seq![head]);
        assert(!text::is_space(head[0]) && !text::is_space(head[head.len() - 1]));
        assert(!head.contains(';')) by {
            if head.contains(';') {
                let i = choose|i: int| 0 <= i < head.len() && head[i] == ';';
                assert(!text::is_space(head[i]));
            }
        }
    } else {
        let rest = list.drop_last();
        let w = list.last();
        assert forall|i: int| 0 <= i < rest.len() implies is_word(#[trigger] rest[i]) by {
            assert(rest[i] == list[i]);
        }
        assert(is_word(list[list.len() - 1]));
        lemma_spaced_words(head, rest);
        let x = head + spaced(rest);
        let s = head + spaced(list);
        assert(s =~= x + seq![' '] + w);
        text::lemma_words_append(x, w);
        lemma_one_word(w);
        assert(seq![head] + list =~= seq![head] + rest + seq![w]);
        assert(s[0] == x[0]);
        assert(s.last() == w[w.len() - 1]);
        assert(!text::is_space(w[w.len() - 1]));
        assert(!s.contains(';')) by {
            if s.contains(';') {
                let i = choose|i: int| 0 <= i < s.len() && s[i] == ';';
                if i < x.len() {
                    assert(x[i] == ';');
                } else if i > x.len() {
                    assert(w[i - x.len() - 1] == ';');
                    assert(!text::is_space(w[i - x.len() - 1]));
                }
            }
        }
    }
}

proof fn lemma_same_names(a: Seq<Seq<char>>, b: Seq<Seq<char>>, wanted: Seq<char>)
    requires
        a.len() == b.len(),
        forall|i: int| 0 <= i < a.len() ==> named(#[trigger] a[i], wanted) == named(b[i], wanted),
    ensures
        first_named(a, wanted) == first_named(b, wanted),
    decreases a.len(),
{
    if a.len() > 0 {
        let x = a.drop_last();
        let y = b.drop_last();
        assert forall|i: int| 0 <= i < x.len() implies named(#[trigger] x[i], wanted) == named(
            y[i],
            wanted,
        ) by {
            assert(x[i] == a[i] && y[i] == b[i]);
        }
        lemma_same_names(x, y, wanted);
        assert(named(a[a.len() - 1], wanted) == named(b[b.len() - 1], wanted));
    }
}

proof fn lemma_first_is_named(ds: Seq<Seq<char>>, wanted: Seq<char>)
    ensures
        first_named(ds, wanted) matches Some(i) ==> 0 <= i < ds.len() && named(ds[i], wanted),
    decreases ds.len(),
{
    if ds.len() > 0 {
        lemma_first_is_named(ds.drop_last(), wanted);
    }
}

/// Widening a policy is enough once: the widened policy grants the stylesheet
/// and is not widened again.
pub proof fn widening_once_is_enough(policy: Seq<char>, source: Seq<char>)
    requires
        is_word(source),
        !alike(source, "'none'"@),
        permitted(policy, source) is Widened,
    ensures
        permitted(permitted(policy, source)->Widened_0, source) is Granted,
{
    let ds = policy_directives(policy);
    text::lemma_parts_hold_no_sep(policy, ';');
    lemma_directives_read_back(text::split_at_each(policy, ';'));
    let (index, inherited) = governing(ds)->0;
    lemma_first_is_named(ds, "style-src-elem"@);
    lemma_first_is_named(ds, "style-src"@);
    lemma_first_is_named(ds, "default-src"@);
    let d = ds[index];
    assert(is_bare(ds[index]) && !ds[index].contains(';'));
    lemma_words_are_words(d);
    let list = sources(d);
    assert forall|i: int| 0 <= i < list.len() implies is_word(#[trigger] list[i]) by {
        assert(list[i] == text::words(d)[i + 1]);
    }
    reveal_strlit(" ");
    assert(" "@ =~= seq![' ']);
    lemma_one_word(source);
    let after = widened(ds, index, inherited, source);
    if inherited {
        reveal_strlit("style-src");
        reveal_strlit("style-src-elem");
        let head = "style-src"@;
        let longer = list.push(source);
        assert(is_word(head));
        assert forall|i: int| 0 <= i < longer.len() implies is_word(#[trigger] longer[i]) by {
            if i < list.len() {
                assert(longer[i] == list[i]);
            }
        }
        lemma_spaced_words(head, longer);
        let style = head + spaced(longer);
        assert(after == ds.push(style));
        assert forall|i: int| 0 <= i < after.len() implies is_bare(#[trigger] after[i])
            && !after[i].contains(';') by {
            if i < ds.len() {
                assert(after[i] == ds[i]);
            }
        }
        lemma_reads_back(after);
        assert(after.drop_last() =~= ds);
        assert(text::words(style)[0] == head);
        assert(!alike(head, "style-src-elem"@)) by {
            assert(name::lowered(head).len() == 9);
            assert(name::lowered("style-src-elem"@).len() == 14);
        }
        assert(governing(after) == Some((ds.len() as int, false)));
        assert(sources(style) =~= longer);
        assert(longer[list.len() as int] == source);
        assert(!has_word(longer, "'none'"@)) by {
            if has_word(longer, "'none'"@) {
                let i = choose|i: int| 0 <= i < longer.len() && alike(#[trigger] longer[i], "'none'"@);
                if i < list.len() {
                    assert(alike(list[i], "'none'"@));
                }
            }
        }
    } else {
        let e = d + " "@ + source;
        assert(e =~= d + seq![' '] + source);
        text::lemma_words_append(d, source);
        assert(text::words(e) =~= text::words(d).push(source));
        assert(e[0] == d[0]);
        assert(e.last() == source[source.len() - 1]);
        assert(!text::is_space(source[source.len() - 1]));
        assert(!e.contains(';')) by {
            if e.contains(';') {
                let i = choose|i: int| 0 <= i < e.len() && e[i] == ';';
                if i < d.len() {
                    assert(d[i] == ';');
                } else if i > d.len() {
                    assert(!text::is_space(source[i - d.len() - 1]));
                    assert(source[i - d.len() - 1] == ';');
                }
            }
        }
        assert(after == ds.update(index, e));
        assert forall|i: int| 0 <= i < after.len() implies is_bare(#[trigger] after[i])
            && !after[i].contains(';') by {
            if i != index {
                assert(after[i] == ds[i]);
            }
        }
        lemma_reads_back(after);
        assert forall|wanted: Seq<char>| first_named(after, wanted) == first_named(ds, wanted) by {
            assert forall|i: int| 0 <= i < after.len() implies named(#[trigger] after[i], wanted)
                == named(ds[i], wanted) by {
                if i == index {
                    assert(text::words(e)[0] == text::words(d)[0]);
                }
            }
            lemma_same_names(after, ds, wanted);
        }
        assert(governing(after) == governing(ds));
        let longer = sources(e);
        assert(longer =~= list.push(source));
        assert(longer[list.len() as int] == source);
        assert(!has_word(longer, "'none'"@)) by {
            if has_word(longer, "'none'"@) {
                let i = choose|i: int| 0 <= i < longer.len() && alike(#[trigger] longer[i], "'none'"@);
                if i < list.len() {
                    assert(alike(list[i], "'none'"@));
                }
            }
        }
    }
}

/// Whether two texts differ in nothing but which of their ASCII letters are
/// capital.
pub open spec fn same_but_case(a: Seq<char>, b: Seq<char>) -> bool {
    a.len() == b.len() && forall|i: int|
        0 <= i < a.len() ==> a[i] == b[i] || ('A' <= a[i] <= 'Z' && b[i] as u32 == a[i] as u32 + 32) || ('A'
            <= b[i] <= 'Z' && a[i] as u32 == #[trigger] b[i] as u32 + 32)
}

pub proof fn lemma_alike_is_same_but_case(a: Seq<char>, b: Seq<char>)
    ensures
        alike(a, b) == same_but_case(a, b),
{
    assert(name::lowered(a).len() == a.len() && name::lowered(b).len() == b.len());
    if alike(a, b) {
        assert forall|i: int| 0 <= i < a.len() implies a[i] == b[i] || ('A' <= a[i] <= 'Z' && b[i] as u32 == a[i]
            as u32 + 32) || ('A' <= b[i] <= 'Z' && a[i] as u32 == #[trigger] b[i] as u32 + 32) by {
            assert(name::lowered(a)[i] == text::lower(a[i]));
            assert(name::lowered(b)[i] == text::lower(b[i]));
        }
    }
    if same_but_case(a, b) {
        assert forall|i: int| 0 <= i < a.len() implies name::lowered(a)[i] == name::lowered(b)[i] by {
            let x = b[i];
            assert(name::lowered(a)[i] == text::lower(a[i]));
            assert(name::lowered(b)[i] == text::lower(b[i]));
        }
        assert(name::lowered(a) =~= name::lowered(b));
    }
}

/// Words with one space between.
pub open spec fn line_of(words: Seq<Seq<char>>) -> Seq<char>
    decreases words.len(),
{
    if words.len() == 0 {
        seq![]
    } else if words.len() == 1 {
        words[0]
    } else {
        line_of(words.drop_last()) + seq![' '] + words.last()
    }
}

/// Directives, each given by its words, with a semicolon and a space between.
pub open spec fn policy_of(ds: Seq<Seq<Seq<char>>>) -> Seq<char>
    decreases ds.len(),
{
    if ds.len() == 0 {
        seq![]
    } else if ds.len() == 1 {
        line_of(ds[0])
    } else {
        policy_of(ds.drop_last()) + seq![';', ' '] + line_of(ds.last())
    }
}

/// Whether each directive has a name, and each name and source is one word.
pub open spec fn are_directives(ds: Seq<Seq<Seq<char>>>) -> bool {
    forall|i: int|
        0 <= i < ds.len() ==> (#[trigger] ds[i]).len() > 0 && forall|j: int|
            0 <= j < ds[i].len() ==> is_word(#[trigger] ds[i][j])
}

proof fn lemma_line(words: Seq<Seq<char>>)
    requires
        words.len() > 0,
        forall|j: int| 0 <= j < words.len() ==> is_word(#[trigger] words[j]),
    ensures
        line_of(words) == words[0] + spaced(words.skip(1)),
        text::words(line_of(words)) == words,
        is_bare(line_of(words)),
        !line_of(words).contains(';'),
    decreases words.len(),
{
    let head = words[0];
    let list = words.skip(1);
    assert forall|i: int| 0 <= i < list.len() implies is_word(#[trigger] list[i]) by {
        assert(list[i] == words[i + 1]);
    }
    lemma_spaced_words(head, list);
    assert(seq![head] + list =~= words);
    reveal_strlit(" ");
    assert(" "@ =~= seq![' ']);
    if words.len() == 1 {
        assert(list =~= seq![]);
        assert(head + spaced(list) =~= head);
    } else {
        let front = words.drop_last();
        assert forall|j: int| 0 <= j < front.len() implies is_word(#[trigger] front[j]) by {
            assert(front[j] == words[j]);
        }
        lemma_line(front);
        assert(front.skip(1) =~= list.drop_last());
        assert(line_of(words) =~= head + spaced(list));
    }
}

/// The lines of directives.
spec fn lines(ds: Seq<Seq<Seq<char>>>) -> Seq<Seq<char>> {
    Seq::new(ds.len(), |i: int| line_of(ds[i]))
}

proof fn lemma_policy(ds: Seq<Seq<Seq<char>>>)
    ensures
        policy_of(ds) == joined(lines(ds)),
    decreases ds.len(),
{
    reveal_strlit("; ");
    assert("; "@ =~= seq![';', ' ']);
    if ds.len() == 0 {
    } else if ds.len() == 1 {
        assert(lines(ds)[0] == line_of(ds[0]));
    } else {
        lemma_policy(ds.drop_last());
        assert(lines(ds).drop_last() =~= lines(ds.drop_last()));
        assert(lines(ds).last() == line_of(ds.last()));
    }
}

/// A policy is read as it was written: its directives in order, each with its name
/// and its sources in order.
pub proof fn a_policy_is_read_as_written(ds: Seq<Seq<Seq<char>>>)
    requires
        are_directives(ds),
    ensures
        policy_directives(policy_of(ds)).len() == ds.len(),
        forall|i: int|
            0 <= i < ds.len() ==> text::words(#[trigger] policy_directives(policy_of(ds))[i]) == ds[i]
                && policy_directives(policy_of(ds))[i] == line_of(ds[i]),
{
    let all = lines(ds);
    assert forall|i: int| 0 <= i < all.len() implies is_bare(#[trigger] all[i]) && !all[i].contains(';')
        && text::words(all[i]) == ds[i] by {
        assert(ds[i].len() > 0);
        lemma_line(ds[i]);
    }
    lemma_reads_back(all);
    lemma_policy(ds);
}

/// Semicolons part a policy: its directives are those of what stands before and
/// behind one. White space round a directive and empty directives count for
/// nothing.
pub proof fn semicolons_part_directives(a: Seq<char>, b: Seq<char>)
    requires
        !b.contains(';'),
    ensures
        policy_directives(a + seq![';'] + b) == policy_directives(a) + policy_directives(b),
        policy_directives(b) == (if text::trimmed(b).len() == 0 {
            Seq::<Seq<char>>::empty()
        } else {
            seq![text::trimmed(b)]
        }),
{
    text::lemma_split_push(a, b, ';');
    let parts = text::split_at_each(a, ';');
    assert(parts.push(b).drop_last() =~= parts);
    assert forall|i: int| 0 <= i < b.len() implies b[i] != ';' by {
        assert(b.contains(b[i]));
    }
    text::lemma_until_is(b, ';', b.len() as int);
    let one = text::split_at_each(b, ';');
    assert(one =~= seq![b]);
    assert(one.drop_last() =~= seq![]);
    assert(directives(one.drop_last()) =~= seq![]);
    assert(policy_directives(b) =~= (if text::trimmed(b).len() == 0 {
        Seq::<Seq<char>>::empty()
    } else {
        seq![text::trimmed(b)]
    }));
    assert(policy_directives(a + seq![';'] + b) =~= policy_directives(a) + policy_directives(b));
}

/// Whether a directive is the first of its name.
pub open spec fn is_first(ds: Seq<Seq<Seq<char>>>, i: int, wanted: Seq<char>) -> bool {
    &&& 0 <= i < ds.len()
    &&& same_but_case(ds[i][0], wanted)
    &&& forall|j: int| 0 <= j < i ==> !same_but_case((#[trigger] ds[j])[0], wanted)
}

/// Whether no directive has a name.
pub open spec fn is_absent(ds: Seq<Seq<Seq<char>>>, wanted: Seq<char>) -> bool {
    forall|j: int| 0 <= j < ds.len() ==> !same_but_case((#[trigger] ds[j])[0], wanted)
}

/// Whether a directive governs style elements: `style-src-elem` before `style-src`,
/// and `default-src` only as their fallback.
pub open spec fn governs(ds: Seq<Seq<Seq<char>>>, i: int, fallback: bool) -> bool {
    if fallback {
        is_absent(ds, "style-src-elem"@) && is_absent(ds, "style-src"@) && is_first(ds, i, "default-src"@)
    } else {
        is_first(ds, i, "style-src-elem"@) || (is_absent(ds, "style-src-elem"@) && is_first(ds, i, "style-src"@))
    }
}

/// Whether one of the sources is a word, case aside.
pub open spec fn lists(sources: Seq<Seq<char>>, word: Seq<char>) -> bool {
    exists|i: int| 0 <= i < sources.len() && same_but_case(#[trigger] sources[i], word)
}

/// Whether a source is a nonce or a hash: behind its quotes stands one of the four
/// words for them, case aside, and something behind that.
pub open spec fn is_nonce_or_digest(source: Seq<char>) -> bool {
    exists|k: int| #[trigger] begins_at(source, k) && {
        let s = source.skip(k);
        ||| s.len() > 6 && same_but_case(s.take(6), "nonce-"@)
        ||| s.len() > 7 && same_but_case(s.take(7), "sha256-"@)
        ||| s.len() > 7 && same_but_case(s.take(7), "sha384-"@)
        ||| s.len() > 7 && same_but_case(s.take(7), "sha512-"@)
    }
}

/// Whether `k` is how many quotes a source starts with.
pub open spec fn begins_at(source: Seq<char>, k: int) -> bool {
    &&& 0 <= k <= source.len()
    &&& forall|j: int| 0 <= j < k ==> source[j] == '\''
    &&& k == source.len() || source[k] != '\''
}

proof fn lemma_unquoted(source: Seq<char>, k: int)
    requires
        begins_at(source, k),
    ensures
        unquoted(source) == source.skip(k),
    decreases source.len(),
{
    if k > 0 {
        let rest = source.skip(1);
        assert forall|j: int| 0 <= j < k - 1 implies rest[j] == '\'' by {
            assert(rest[j] == source[j + 1]);
        }
        lemma_unquoted(rest, k - 1);
        assert(rest.skip(k - 1) =~= source.skip(k));
    } else {
        assert(source.skip(0) =~= source);
    }
}

proof fn lemma_quotes(source: Seq<char>) -> (k: int)
    ensures
        begins_at(source, k),
    decreases source.len(),
{
    if source.len() > 0 && source[0] == '\'' {
        let rest = source.skip(1);
        let n = lemma_quotes(rest);
        assert forall|j: int| 0 <= j < n + 1 implies source[j] == '\'' by {
            if j > 0 {
                assert(rest[j - 1] == source[j]);
            }
        }
        n + 1
    } else {
        0
    }
}

proof fn lemma_binds(source: Seq<char>)
    ensures
        binds(source) == is_nonce_or_digest(source),
{
    reveal_strlit("nonce-");
    reveal_strlit("sha256-");
    reveal_strlit("sha384-");
    reveal_strlit("sha512-");
    let k = lemma_quotes(source);
    lemma_unquoted(source, k);
    let s = source.skip(k);
    lemma_alike_is_same_but_case(s.take(6), "nonce-"@);
    lemma_alike_is_same_but_case(s.take(7), "sha256-"@);
    lemma_alike_is_same_but_case(s.take(7), "sha384-"@);
    lemma_alike_is_same_but_case(s.take(7), "sha512-"@);
    if is_nonce_or_digest(source) {
        let n = choose|n: int| #[trigger] begins_at(source, n) && {
            let s = source.skip(n);
            ||| s.len() > 6 && same_but_case(s.take(6), "nonce-"@)
            ||| s.len() > 7 && same_but_case(s.take(7), "sha256-"@)
            ||| s.len() > 7 && same_but_case(s.take(7), "sha384-"@)
            ||| s.len() > 7 && same_but_case(s.take(7), "sha512-"@)
        };
        lemma_unquoted(source, n);
        assert(n == k) by {
            if n < k {
                assert(source[n] == '\'');
            } else if k < n {
                assert(source[k] == '\'');
            }
        }
    }
}

/// Whether directives have these words.
pub open spec fn have_words(all: Seq<Seq<char>>, ds: Seq<Seq<Seq<char>>>) -> bool {
    all.len() == ds.len() && forall|i: int| 0 <= i < all.len() ==> text::words(#[trigger] all[i]) == ds[i]
}

proof fn lemma_first_named_is(all: Seq<Seq<char>>, ds: Seq<Seq<Seq<char>>>, wanted: Seq<char>, n: int)
    requires
        have_words(all, ds),
        forall|i: int| 0 <= i < ds.len() ==> (#[trigger] ds[i]).len() > 0,
        0 <= n <= ds.len(),
    ensures
        match first_named(all.take(n), wanted) {
            Some(i) => is_first(ds, i, wanted) && i < n,
            None => forall|j: int| 0 <= j < n ==> !same_but_case((#[trigger] ds[j])[0], wanted),
        },
    decreases n,
{
    if n > 0 {
        lemma_first_named_is(all, ds, wanted, n - 1);
        let front = all.take(n);
        assert(front.drop_last() =~= all.take(n - 1));
        assert(ds[n - 1].len() > 0);
        assert(front.last() == all[n - 1]);
        assert(text::words(all[n - 1]) == ds[n - 1]);
        lemma_alike_is_same_but_case(ds[n - 1][0], wanted);
    }
}

proof fn lemma_governing_is(all: Seq<Seq<char>>, ds: Seq<Seq<Seq<char>>>)
    requires
        have_words(all, ds),
        forall|i: int| 0 <= i < ds.len() ==> (#[trigger] ds[i]).len() > 0,
    ensures
        match governing(all) {
            Some((i, fallback)) => governs(ds, i, fallback),
            None => is_absent(ds, "style-src-elem"@) && is_absent(ds, "style-src"@) && is_absent(
                ds,
                "default-src"@,
            ),
        },
{
    let n = ds.len() as int;
    assert(all.take(n) =~= all);
    lemma_first_named_is(all, ds, "style-src-elem"@, n);
    lemma_first_named_is(all, ds, "style-src"@, n);
    lemma_first_named_is(all, ds, "default-src"@, n);
}

proof fn lemma_one_governs(ds: Seq<Seq<Seq<char>>>, i: int, a: bool, j: int, b: bool)
    requires
        governs(ds, i, a),
        governs(ds, j, b),
    ensures
        i == j,
        a == b,
{
    if is_first(ds, i, "style-src-elem"@) {
        assert(same_but_case(ds[i][0], "style-src-elem"@));
    }
    if is_first(ds, j, "style-src-elem"@) {
        assert(same_but_case(ds[j][0], "style-src-elem"@));
    }
    if is_first(ds, i, "style-src"@) {
        assert(same_but_case(ds[i][0], "style-src"@));
    }
    if is_first(ds, j, "style-src"@) {
        assert(same_but_case(ds[j][0], "style-src"@));
    }
    if i < j {
        assert(!(same_but_case(ds[i][0], "style-src-elem"@) && is_first(ds, j, "style-src-elem"@)));
        assert(!(same_but_case(ds[i][0], "style-src"@) && is_first(ds, j, "style-src"@)));
        assert(!(same_but_case(ds[i][0], "default-src"@) && is_first(ds, j, "default-src"@)));
    } else if j < i {
        assert(!(same_but_case(ds[j][0], "style-src-elem"@) && is_first(ds, i, "style-src-elem"@)));
        assert(!(same_but_case(ds[j][0], "style-src"@) && is_first(ds, i, "style-src"@)));
        assert(!(same_but_case(ds[j][0], "default-src"@) && is_first(ds, i, "default-src"@)));
    }
}

/// What becomes of a policy, by the directive that governs style elements. Where
/// none does, the stylesheet is granted. Where its sources hold `'none'`, it is
/// refused. Where they name the stylesheet already, it is granted. Where
/// `'unsafe-inline'` is in effect, since no nonce and no hash stands beside it, it
/// is granted, whether the directive governs by its own name or as the fallback:
/// no hash is ever added to such sources. In every other case the policy is
/// widened by exactly the source: at the end of the governing directive, or in one
/// new `style-src` behind all others that repeats the fallback's sources.
pub proof fn a_policy_is_widened_by_exactly_the_source(
    ds: Seq<Seq<Seq<char>>>,
    i: int,
    fallback: bool,
    policy: &str,
    source: &str,
    r: InlineStyle,
)
    requires
        are_directives(ds),
        policy@ == policy_of(ds),
        call_ensures(permit_inline_style, (policy, source), r),
    ensures
        is_absent(ds, "style-src-elem"@) && is_absent(ds, "style-src"@) && is_absent(ds, "default-src"@) ==> r
            is Granted,
        governs(ds, i, fallback) ==> {
            let list = ds[i].skip(1);
            &&& lists(list, "'none'"@) ==> r is Refused
            &&& !lists(list, "'none'"@) && list.contains(source@) ==> r is Granted
            &&& !lists(list, "'none'"@) && lists(list, "'unsafe-inline'"@) && (forall|j: int|
                0 <= j < list.len() ==> !is_nonce_or_digest(#[trigger] list[j])) ==> r is Granted
            &&& !lists(list, "'none'"@) && !list.contains(source@) && (!lists(list, "'unsafe-inline'"@) || exists|
                j: int,
            |
                0 <= j < list.len() && is_nonce_or_digest(#[trigger] list[j])) ==> (r matches InlineStyle::Widened(t)
                && t@ == policy_of(
                if fallback {
                    ds.push(seq!["style-src"@] + list + seq![source@])
                } else {
                    ds.update(i, ds[i].push(source@))
                },
            ))
        },
{
    a_policy_is_read_as_written(ds);
    let all = policy_directives(policy@);
    assert(all =~= lines(ds));
    assert(have_words(all, ds));
    lemma_governing_is(all, ds);
    match governing(all) {
        None => {
            if governs(ds, i, fallback) {
                assert(is_absent(ds, "style-src-elem"@));
                assert(false);
            }
        },
        Some((g, inherited)) => {
            assert(governs(ds, g, inherited));
            if is_absent(ds, "style-src-elem"@) && is_absent(ds, "style-src"@) && is_absent(ds, "default-src"@) {
                assert(false);
            }
            if governs(ds, i, fallback) {
                lemma_one_governs(ds, i, fallback, g, inherited);
                let list = ds[i].skip(1);
                assert(ds[i].len() > 0);
                lemma_line(ds[i]);
                assert(sources(all[i]) == list);
                lemma_lists(list, "'none'"@);
                lemma_lists(list, "'unsafe-inline'"@);
                lemma_bound_is(list);
                let after = if fallback {
                    ds.push(seq!["style-src"@] + list + seq![source@])
                } else {
                    ds.update(i, ds[i].push(source@))
                };
                lemma_widened_lines(ds, i, fallback, source@);
                lemma_policy(after);
            }
        },
    }
}

/// Directives with a semicolon and a space between.
pub open spec fn semicoloned(all: Seq<Seq<char>>) -> Seq<char>
    decreases all.len(),
{
    if all.len() == 0 {
        seq![]
    } else if all.len() == 1 {
        all[0]
    } else {
        semicoloned(all.drop_last()) + seq![';', ' '] + all.last()
    }
}

proof fn lemma_joined_is_semicoloned(all: Seq<Seq<char>>)
    ensures
        joined(all) == semicoloned(all),
    decreases all.len(),
{
    reveal_strlit("; ");
    assert("; "@ =~= seq![';', ' ']);
    if all.len() > 1 {
        lemma_joined_is_semicoloned(all.drop_last());
    }
}

/// The same of every policy, however it is spaced: it is judged by the words of its
/// directives, and one that is widened keeps every directive as it is written, but for the
/// source behind the governing one or the new directive behind all others.
pub proof fn a_policy_is_judged_by_its_words(
    ds: Seq<Seq<Seq<char>>>,
    i: int,
    fallback: bool,
    policy: &str,
    source: &str,
    r: InlineStyle,
)
    requires
        have_words(policy_directives(policy@), ds),
        call_ensures(permit_inline_style, (policy, source), r),
    ensures
        is_absent(ds, "style-src-elem"@) && is_absent(ds, "style-src"@) && is_absent(ds, "default-src"@) ==> r
            is Granted,
        governs(ds, i, fallback) ==> {
            let list = ds[i].skip(1);
            let all = policy_directives(policy@);
            &&& lists(list, "'none'"@) ==> r is Refused
            &&& !lists(list, "'none'"@) && list.contains(source@) ==> r is Granted
            &&& !lists(list, "'none'"@) && lists(list, "'unsafe-inline'"@) && (forall|j: int|
                0 <= j < list.len() ==> !is_nonce_or_digest(#[trigger] list[j])) ==> r is Granted
            &&& !lists(list, "'none'"@) && !list.contains(source@) && (!lists(list, "'unsafe-inline'"@) || exists|
                j: int,
            |
                0 <= j < list.len() && is_nonce_or_digest(#[trigger] list[j])) ==> (r matches InlineStyle::Widened(t)
                && t@ == semicoloned(
                if fallback {
                    all.push(line_of(seq!["style-src"@] + list + seq![source@]))
                } else {
                    all.update(i, all[i] + seq![' '] + source@)
                },
            ))
        },
{
    let all = policy_directives(policy@);
    lemma_parts_have_names(policy@);
    assert forall|k: int| 0 <= k < ds.len() implies (#[trigger] ds[k]).len() > 0 by {
        assert(text::words(all[k]) == ds[k]);
    }
    lemma_governing_is(all, ds);
    match governing(all) {
        None => {
            if governs(ds, i, fallback) {
                assert(is_absent(ds, "style-src-elem"@));
                assert(false);
            }
        },
        Some((g, inherited)) => {
            assert(governs(ds, g, inherited));
            if is_absent(ds, "style-src-elem"@) && is_absent(ds, "style-src"@) && is_absent(ds, "default-src"@) {
                assert(false);
            }
            if governs(ds, i, fallback) {
                lemma_one_governs(ds, i, fallback, g, inherited);
                let list = ds[i].skip(1);
                assert(text::words(all[i]) == ds[i]);
                assert(sources(all[i]) == list);
                lemma_lists(list, "'none'"@);
                lemma_lists(list, "'unsafe-inline'"@);
                lemma_bound_is(list);
                reveal_strlit(" ");
                assert(" "@ =~= seq![' ']);
                let words = seq!["style-src"@] + list + seq![source@];
                assert(words =~= seq!["style-src"@] + list.push(source@));
                lemma_line_is_spaced("style-src"@, list.push(source@));
                lemma_joined_is_semicoloned(widened(all, i, fallback, source@));
            }
        },
    }
}

proof fn lemma_parts_have_names(policy: Seq<char>)
    ensures
        forall|i: int|
            0 <= i < policy_directives(policy).len() ==> text::words(#[trigger] policy_directives(policy)[i]).len() > 0,
{
    lemma_parts_hold_no_semicolon(policy);
    let all = policy_directives(policy);
    assert forall|i: int| 0 <= i < all.len() implies text::words(#[trigger] all[i]).len() > 0 by {
        let d = all[i];
        assert(is_bare(all[i]));
        assert(text::trimmed_start(d) == d);
        text::lemma_word_len(d);
        assert(text::words(d) == seq![d.take(text::word_len(d) as int)] + text::words(
            d.skip(text::word_len(d) as int),
        ));
    }
}

proof fn lemma_parts_hold_no_semicolon(policy: Seq<char>)
    ensures
        reads_back(policy_directives(policy)),
{
    text::lemma_parts_hold_no_sep(policy, ';');
    lemma_directives_read_back(text::split_at_each(policy, ';'));
}

proof fn lemma_bound_is(list: Seq<Seq<char>>)
    ensures
        is_bound(list) <==> exists|j: int| 0 <= j < list.len() && is_nonce_or_digest(#[trigger] list[j]),
{
    assert forall|j: int| 0 <= j < list.len() implies binds(#[trigger] list[j]) == is_nonce_or_digest(list[j]) by {
        lemma_binds(list[j]);
    }
    if is_bound(list) {
        let j = choose|j: int| 0 <= j < list.len() && binds(#[trigger] list[j]);
        assert(is_nonce_or_digest(list[j]));
    }
    if exists|j: int| 0 <= j < list.len() && is_nonce_or_digest(#[trigger] list[j]) {
        let j = choose|j: int| 0 <= j < list.len() && is_nonce_or_digest(#[trigger] list[j]);
        assert(binds(list[j]));
    }
}

pub proof fn lemma_lists(list: Seq<Seq<char>>, word: Seq<char>)
    ensures
        has_word(list, word) == lists(list, word),
{
    assert forall|j: int| 0 <= j < list.len() implies alike(#[trigger] list[j], word) == same_but_case(
        list[j],
        word,
    ) by {
        lemma_alike_is_same_but_case(list[j], word);
    }
    if has_word(list, word) {
        let j = choose|j: int| 0 <= j < list.len() && alike(#[trigger] list[j], word);
        assert(same_but_case(list[j], word));
    }
    if lists(list, word) {
        let j = choose|j: int| 0 <= j < list.len() && same_but_case(#[trigger] list[j], word);
        assert(alike(list[j], word));
    }
}

proof fn lemma_line_is_spaced(head: Seq<char>, list: Seq<Seq<char>>)
    ensures
        line_of(seq![head] + list) == head + spaced(list),
    decreases list.len(),
{
    reveal_strlit(" ");
    assert(" "@ =~= seq![' ']);
    let words = seq![head] + list;
    if list.len() == 0 {
        assert(head + spaced(list) =~= head);
    } else {
        lemma_line_is_spaced(head, list.drop_last());
        assert(words.drop_last() =~= seq![head] + list.drop_last());
        assert(line_of(words) =~= head + spaced(list));
    }
}

proof fn lemma_widened_lines(ds: Seq<Seq<Seq<char>>>, i: int, fallback: bool, source: Seq<char>)
    requires
        are_directives(ds),
        0 <= i < ds.len(),
    ensures
        widened(lines(ds), i, fallback, source) == lines(
            if fallback {
                ds.push(seq!["style-src"@] + ds[i].skip(1) + seq![source])
            } else {
                ds.update(i, ds[i].push(source))
            },
        ),
{
    reveal_strlit(" ");
    assert(" "@ =~= seq![' ']);
    assert(ds[i].len() > 0);
    lemma_line(ds[i]);
    let list = ds[i].skip(1);
    if fallback {
        let words = seq!["style-src"@] + list + seq![source];
        assert(words =~= seq!["style-src"@] + list.push(source));
        lemma_line_is_spaced("style-src"@, list.push(source));
        assert(sources(line_of(ds[i])) == list);
        assert(widened(lines(ds), i, fallback, source) =~= lines(ds.push(words)));
    } else {
        let words = ds[i].push(source);
        assert(words.drop_last() =~= ds[i]);
        assert(line_of(words) == line_of(ds[i]) + seq![' '] + source);
        assert(widened(lines(ds), i, fallback, source) =~= lines(ds.update(i, words)));
    }
}

/// The policies of two header blocks one after the other are those of each, and so
/// are the fields of other names: none moves, and none is changed for another.
pub proof fn fields_are_taken_one_by_one(a: Seq<Field>, b: Seq<Field>, unwanted: Seq<u8>)
    ensures
        policies(a + b) == policies(a) + policies(b),
        without(a + b, unwanted) == without(a, unwanted) + without(b, unwanted),
    decreases b.len(),
{
    if b.len() == 0 {
        assert(a + b =~= a);
        assert(policies(a) + policies(b) =~= policies(a));
        assert(without(a, unwanted) + without(b, unwanted) =~= without(a, unwanted));
    } else {
        fields_are_taken_one_by_one(a, b.drop_last(), unwanted);
        assert((a + b).drop_last() =~= a + b.drop_last());
        assert(policies(a + b) =~= policies(a) + policies(b));
        assert(without(a + b, unwanted) =~= without(a, unwanted) + without(b, unwanted));
    }
}

/// A field is a policy exactly if it is named `content-security-policy` and reads
/// as text; it stays with the rest exactly if it has another name.
pub proof fn a_field_is_a_policy_by_its_name(f: Field, unwanted: Seq<u8>)
    ensures
        f.0@ == fields::ascii("content-security-policy"@) && (forall|i: int|
            0 <= i < f.1@.len() ==> 32 <= #[trigger] f.1@[i] < 127 || f.1@[i] == 9) ==> policies(seq![f]).len() == 1
            && policies(seq![f])[0].len() == f.1@.len() && forall|i: int|
            0 <= i < f.1@.len() ==> policies(seq![f])[0][i] as u32 == #[trigger] f.1@[i],
        f.0@ != fields::ascii("content-security-policy"@) ==> policies(seq![f]).len() == 0,
        (exists|i: int| 0 <= i < f.1@.len() && !(32 <= #[trigger] f.1@[i] < 127 || f.1@[i] == 9)) ==> policies(
            seq![f],
        ).len() == 0,
        without(seq![f], unwanted) == (if f.0@ == unwanted {
            Seq::<(Seq<u8>, Seq<u8>)>::empty()
        } else {
            seq![(f.0@, f.1@)]
        }),
{
    let one = seq![f];
    assert(one.drop_last() =~= seq![]);
    assert(policies(one.drop_last()) =~= seq![]);
    assert(without(one.drop_last(), unwanted) =~= seq![]);
    let value = f.1@;
    if forall|i: int| 0 <= i < value.len() ==> is_visible(#[trigger] value[i]) {
    } else {
        let i = choose|i: int| 0 <= i < value.len() && !is_visible(#[trigger] value[i]);
        assert(!is_visible(f.1@[i]));
    }
    assert(without(one, unwanted) =~= (if f.0@ == unwanted {
        Seq::<(Seq<u8>, Seq<u8>)>::empty()
    } else {
        seq![(f.0@, f.1@)]
    }));
}

} // verus!
