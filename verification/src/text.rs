//! Text as sequences of characters: taking it apart and putting it together.

use vstd::prelude::*;
use vstd::slice::slice_subrange;

verus! {

/// `String::push`: the character is added at the end, the rest is kept.
#[verifier::external_body]
pub(crate) fn push_char(into: &mut String, c: char)
    ensures
        final(into)@ == old(into)@.push(c),
{
    into.push(c);
}

/// `std::str::from_utf8`: the text that the bytes encode, exactly if they are
/// valid UTF-8.
#[verifier::external_body]
pub(crate) fn utf8_text(bytes: &[u8]) -> (r: Option<&str>)
    ensures
        r is Some == vstd::utf8::valid_utf8(bytes@),
        r is Some ==> r->0@ == vstd::utf8::decode_utf8(bytes@),
{
    std::str::from_utf8(bytes).ok()
}

/// The decimal digit standing for `d`.
pub open spec fn digit_char(d: nat) -> char
    recommends
        d < 10,
{
    (('0' as nat) + d) as char
}

/// `n` written in decimal, without leading zeros.
pub open spec fn decimal(n: nat) -> Seq<char>
    decreases n,
{
    if n < 10 {
        seq![digit_char(n)]
    } else {
        decimal(n / 10).push(digit_char(n % 10))
    }
}

fn digit(d: u64) -> (c: char)
    requires
        d < 10,
    ensures
        c == digit_char(d as nat),
{
    let byte: u8 = 48 + d as u8;
    byte as char
}

/// Appends `n` in decimal.
pub fn push_decimal(into: &mut String, n: u64)
    ensures
        final(into)@ == old(into)@ + decimal(n as nat),
    decreases n,
{
    if n >= 10 {
        push_decimal(into, n / 10);
        push_char(into, digit(n % 10));
    } else {
        push_char(into, digit(n));
    }
    proof {
        assert(into@ =~= old(into)@ + decimal(n as nat));
    }
}

/// Appends text.
pub fn push_text(into: &mut String, text: &str)
    ensures
        final(into)@ == old(into)@ + text@,
{
    into.append(text);
}

/// The characters of `text`.
pub fn chars_of(text: &str) -> (r: Vec<char>)
    ensures
        r@ == text@,
{
    let mut r: Vec<char> = Vec::new();
    for c in it: text.chars()
        invariant
            r@ == it.seq().take(it.index()),
            it.seq() == text@,
    {
        r.push(c);
        proof {
            assert(text@.take(it.index() + 1) =~= text@.take(it.index()).push(c));
        }
    }
    assert(text@.take(text@.len() as int) =~= text@);
    r
}

/// The string of `chars`.
pub fn string_of(chars: &[char]) -> (r: String)
    ensures
        r@ == chars@,
{
    let mut r = String::new();
    let n: usize = chars.len();
    let mut i: usize = 0;
    while i < n
        invariant
            i <= n,
            n == chars@.len(),
            r@ == chars@.take(i as int),
        decreases n - i,
    {
        push_char(&mut r, chars[i]);
        proof {
            assert(chars@.take(i + 1) =~= chars@.take(i as int).push(chars@[i as int]));
        }
        i += 1;
    }
    assert(chars@.take(n as int) =~= chars@);
    r
}

/// The sequences that a vector of vectors holds.
pub open spec fn views<T>(v: Seq<Vec<T>>) -> Seq<Seq<T>> {
    Seq::new(v.len(), |i: int| v[i]@)
}

/// Whether `c` has Unicode's `White_Space` property.
pub open spec fn is_space(c: char) -> bool {
    let n = c as u32;
    ||| 0x9 <= n <= 0xd
    ||| n == 0x20
    ||| n == 0x85
    ||| n == 0xa0
    ||| n == 0x1680
    ||| 0x2000 <= n <= 0x200a
    ||| n == 0x2028
    ||| n == 0x2029
    ||| n == 0x202f
    ||| n == 0x205f
    ||| n == 0x3000
}

pub fn space(c: char) -> (r: bool)
    ensures
        r == is_space(c),
{
    let n: u32 = c as u32;
    (0x9 <= n && n <= 0xd) || n == 0x20 || n == 0x85 || n == 0xa0 || n == 0x1680 || (0x2000 <= n
        && n <= 0x200a) || n == 0x2028 || n == 0x2029 || n == 0x202f || n == 0x205f || n == 0x3000
}

/// `s` without the white space it starts with.
pub open spec fn trimmed_start(s: Seq<char>) -> Seq<char>
    decreases s.len(),
{
    if s.len() > 0 && is_space(s[0]) {
        trimmed_start(s.skip(1))
    } else {
        s
    }
}

/// `s` without the white space it ends with.
pub open spec fn trimmed_end(s: Seq<char>) -> Seq<char>
    decreases s.len(),
{
    if s.len() > 0 && is_space(s.last()) {
        trimmed_end(s.drop_last())
    } else {
        s
    }
}

/// `s` without white space at either end.
pub open spec fn trimmed(s: Seq<char>) -> Seq<char> {
    trimmed_end(trimmed_start(s))
}

pub fn trim_start(s: &[char]) -> (r: &[char])
    ensures
        r@ == trimmed_start(s@),
{
    let n: usize = s.len();
    let mut i: usize = 0;
    assert(s@.skip(0) =~= s@);
    while i < n && space(s[i])
        invariant
            i <= n,
            n == s@.len(),
            trimmed_start(s@.skip(i as int)) == trimmed_start(s@),
        decreases n - i,
    {
        assert(s@.skip(i as int).skip(1) =~= s@.skip(i + 1));
        i += 1;
    }
    assert(s@.subrange(i as int, n as int) =~= s@.skip(i as int));
    slice_subrange(s, i, n)
}

pub fn trim_end(s: &[char]) -> (r: &[char])
    ensures
        r@ == trimmed_end(s@),
{
    let mut n: usize = s.len();
    assert(s@.take(n as int) =~= s@);
    while n > 0 && space(s[n - 1])
        invariant
            n <= s@.len(),
            trimmed_end(s@.take(n as int)) == trimmed_end(s@),
        decreases n,
    {
        assert(s@.take(n as int).drop_last() =~= s@.take(n - 1));
        n -= 1;
    }
    assert(s@.subrange(0, n as int) =~= s@.take(n as int));
    slice_subrange(s, 0, n)
}

pub fn trim(s: &[char]) -> (r: &[char])
    ensures
        r@ == trimmed(s@),
{
    trim_end(trim_start(s))
}

/// How many characters `s` starts with that are no white space.
pub open spec fn word_len(s: Seq<char>) -> nat
    decreases s.len(),
{
    if s.len() > 0 && !is_space(s[0]) {
        1 + word_len(s.skip(1))
    } else {
        0
    }
}

pub proof fn lemma_word_len(s: Seq<char>)
    ensures
        word_len(s) <= s.len(),
    decreases s.len(),
{
    if s.len() > 0 && !is_space(s[0]) {
        lemma_word_len(s.skip(1));
    }
}

pub proof fn lemma_trimmed_start(s: Seq<char>)
    ensures
        trimmed_start(s).len() <= s.len(),
        trimmed_start(s).len() > 0 ==> !is_space(trimmed_start(s)[0]),
    decreases s.len(),
{
    if s.len() > 0 && is_space(s[0]) {
        lemma_trimmed_start(s.skip(1));
    }
}

/// The maximal runs of `s` that hold no white space.
pub open spec fn words(s: Seq<char>) -> Seq<Seq<char>>
    decreases s.len(),
    when true
    via words_decreases
{
    let t = trimmed_start(s);
    if t.len() == 0 {
        seq![]
    } else {
        seq![t.take(word_len(t) as int)] + words(t.skip(word_len(t) as int))
    }
}

#[via_fn]
proof fn words_decreases(s: Seq<char>) {
    lemma_trimmed_start(s);
    lemma_word_len(trimmed_start(s));
}

pub fn split_words(s: &[char]) -> (r: Vec<Vec<char>>)
    ensures
        views(r@) == words(s@),
{
    let mut r: Vec<Vec<char>> = Vec::new();
    let mut rest: &[char] = trim_start(s);
    proof {
        lemma_trimmed_start(s@);
        lemma_trim_again(s@);
        assert(views(r@) + words(rest@) =~= words(s@));
    }
    while rest.len() > 0
        invariant
            views(r@) + words(rest@) == words(s@),
            rest@.len() > 0 ==> !is_space(rest@[0]),
        decreases rest@.len(),
    {
        let m: usize = rest.len();
        let mut n: usize = 0;
        let mut word: Vec<char> = Vec::new();
        assert(rest@.skip(0) =~= rest@);
        while n < m && !space(rest[n])
            invariant
                n <= m,
                m == rest@.len(),
                word@ == rest@.take(n as int),
                n + word_len(rest@.skip(n as int)) == word_len(rest@),
            decreases m - n,
        {
            word.push(rest[n]);
            proof {
                assert(rest@.skip(n as int).skip(1) =~= rest@.skip(n + 1));
                assert(rest@.take(n + 1) =~= rest@.take(n as int).push(rest@[n as int]));
            }
            n += 1;
        }
        let ghost before = r@;
        r.push(word);
        let after: &[char] = slice_subrange(rest, n, m);
        let next: &[char] = trim_start(after);
        proof {
            assert(n == word_len(rest@));
            assert(trimmed_start(rest@) == rest@);
            assert(after@ =~= rest@.skip(n as int));
            lemma_trimmed_start(after@);
            lemma_trim_again(after@);
            assert(views(r@) =~= views(before).push(rest@.take(n as int)));
            assert(words(rest@) == seq![rest@.take(n as int)] + words(rest@.skip(n as int)));
            assert(views(r@) + words(next@) =~= views(before) + words(rest@));
            assert(n > 0);
        }
        rest = next;
    }
    assert(views(r@) + words(rest@) =~= views(r@));
    r
}

/// White space before the first word belongs to no word.
pub proof fn lemma_trim_again(s: Seq<char>)
    ensures
        words(trimmed_start(s)) == words(s),
{
    lemma_trimmed_start(s);
    let t = trimmed_start(s);
    assert(trimmed_start(t) == t);
}

/// How many elements of `s` stand before the first `sep`; all where none is.
pub open spec fn until<T>(s: Seq<T>, sep: T) -> nat
    decreases s.len(),
{
    if s.len() == 0 || s[0] == sep {
        0
    } else {
        1 + until(s.skip(1), sep)
    }
}

/// What the first `sep` leaves before it, stated without recursion.
pub proof fn lemma_until<T>(s: Seq<T>, sep: T)
    ensures
        until(s, sep) <= s.len(),
        forall|i: int| 0 <= i < until(s, sep) ==> s[i] != sep,
        until(s, sep) < s.len() ==> s[until(s, sep) as int] == sep,
    decreases s.len(),
{
    if s.len() > 0 && s[0] != sep {
        lemma_until(s.skip(1), sep);
        assert forall|i: int| 0 <= i < until(s, sep) implies s[i] != sep by {
            if i > 0 {
                assert(s[i] == s.skip(1)[i - 1]);
            }
        }
        if until(s, sep) < s.len() {
            assert(s[until(s, sep) as int] == s.skip(1)[until(s, sep) - 1]);
        }
    }
}

/// A position that holds `sep` after none holds it is where `until` stops.
pub proof fn lemma_until_is<T>(s: Seq<T>, sep: T, n: int)
    requires
        0 <= n <= s.len(),
        forall|i: int| 0 <= i < n ==> s[i] != sep,
        n == s.len() || s[n] == sep,
    ensures
        until(s, sep) == n,
{
    lemma_until(s, sep);
    let u = until(s, sep) as int;
    if u < n {
        assert(s[u] == sep);
    } else if n < u {
        assert(s[n] != sep);
    }
}

/// The parts of `s` between the `sep`s: one more than there are `sep`s.
pub open spec fn split_at_each<T>(s: Seq<T>, sep: T) -> Seq<Seq<T>>
    decreases s.len(),
{
    let n = until(s, sep) as int;
    if n >= s.len() {
        seq![s]
    } else {
        seq![s.take(n)] + split_at_each(s.skip(n + 1), sep)
    }
}

/// Parts that hold no `sep`, and whose joint with `sep` between is `s`.
pub fn split_chars(s: &[char], sep: char) -> (r: Vec<Vec<char>>)
    ensures
        views(r@) == split_at_each(s@, sep),
        r@.len() > 0,
{
    let mut r: Vec<Vec<char>> = Vec::new();
    let n: usize = s.len();
    let mut from: usize = 0;
    let mut part: Vec<char> = Vec::new();
    let mut i: usize = 0;
    proof {
        assert(s@.skip(0) =~= s@);
        assert(views(r@) + split_at_each(s@.skip(0), sep) =~= split_at_each(s@, sep));
    }
    while i < n
        invariant
            from <= i <= n,
            n == s@.len(),
            part@ == s@.subrange(from as int, i as int),
            forall|j: int| from <= j < i ==> s@[j] != sep,
            views(r@) + split_at_each(s@.skip(from as int), sep) == split_at_each(s@, sep),
        decreases n - i,
    {
        let c: char = s[i];
        if c == sep {
            let ghost before = r@;
            r.push(part);
            part = Vec::new();
            proof {
                let t = s@.skip(from as int);
                lemma_until_is(t, sep, i - from);
                assert(t.take(i - from) =~= s@.subrange(from as int, i as int));
                assert(t.skip(i - from + 1) =~= s@.skip(i + 1));
                assert(views(r@) =~= views(before).push(t.take(i - from)));
                assert(views(r@) + split_at_each(s@.skip(i + 1), sep) =~= views(before)
                    + split_at_each(t, sep));
            }
            from = i + 1;
            assert(part@ =~= s@.subrange(from as int, i + 1));
        } else {
            part.push(c);
            assert(part@ =~= s@.subrange(from as int, i + 1));
        }
        i += 1;
    }
    let ghost before = r@;
    r.push(part);
    proof {
        let t = s@.skip(from as int);
        lemma_until_is(t, sep, t.len() as int);
        assert(s@.subrange(from as int, n as int) =~= t);
        assert(views(r@) =~= views(before) + seq![t]);
    }
    r
}

/// Whether `part` stands somewhere in `s`.
pub open spec fn holds<T>(s: Seq<T>, part: Seq<T>) -> bool {
    exists|i: int|
        0 <= i <= s.len() - part.len() && #[trigger] s.subrange(i, i + part.len()) == part
}

/// Whether two slices hold the same characters.
pub fn same_chars(a: &[char], b: &[char]) -> (r: bool)
    ensures
        r == (a@ == b@),
{
    if a.len() != b.len() {
        return false;
    }
    let n: usize = a.len();
    let mut i: usize = 0;
    while i < n
        invariant
            i <= n,
            n == a@.len(),
            n == b@.len(),
            forall|j: int| 0 <= j < i ==> a@[j] == b@[j],
        decreases n - i,
    {
        if a[i] != b[i] {
            return false;
        }
        i += 1;
    }
    assert(a@ =~= b@);
    true
}

/// Whether two slices hold the same bytes.
pub fn same_bytes(a: &[u8], b: &[u8]) -> (r: bool)
    ensures
        r == (a@ == b@),
{
    if a.len() != b.len() {
        return false;
    }
    let n: usize = a.len();
    let mut i: usize = 0;
    while i < n
        invariant
            i <= n,
            n == a@.len(),
            n == b@.len(),
            forall|j: int| 0 <= j < i ==> a@[j] == b@[j],
        decreases n - i,
    {
        if a[i] != b[i] {
            return false;
        }
        i += 1;
    }
    assert(a@ =~= b@);
    true
}

/// Whether `s` starts with `prefix`.
pub fn starts_with(s: &[char], prefix: &str) -> (r: bool)
    ensures
        r == prefix@.is_prefix_of(s@),
{
    let p: Vec<char> = chars_of(prefix);
    if p.len() > s.len() {
        return false;
    }
    let head: &[char] = slice_subrange(s, 0, p.len());
    same_chars(head, p.as_slice())
}

/// Whether `part` stands somewhere in `s`.
pub fn has_text(s: &[char], part: &str) -> (r: bool)
    ensures
        r == holds(s@, part@),
{
    let p: Vec<char> = chars_of(part);
    let m: usize = p.len();
    let n: usize = s.len();
    if m > n {
        return false;
    }
    let mut i: usize = 0;
    while i <= n - m
        invariant
            i <= n - m + 1,
            m <= n,
            n == s@.len(),
            m == p@.len(),
            p@ == part@,
            forall|j: int| 0 <= j < i ==> #[trigger] s@.subrange(j, j + part@.len()) != part@,
        decreases n - m + 1 - i,
    {
        let window: &[char] = slice_subrange(s, i, i + m);
        if same_chars(window, p.as_slice()) {
            assert(s@.subrange(i as int, i + part@.len()) == part@);
            return true;
        }
        if i == n - m {
            proof {
                assert forall|j: int| 0 <= j <= s@.len() - part@.len() implies #[trigger] s@.subrange(
                    j,
                    j + part@.len(),
                ) != part@ by {}
            }
            return false;
        }
        i += 1;
    }
    false
}

/// Whether `c` stands somewhere in `s`.
pub fn has_char(s: &[char], c: char) -> (r: bool)
    ensures
        r == s@.contains(c),
{
    let n: usize = s.len();
    let mut i: usize = 0;
    while i < n
        invariant
            i <= n,
            n == s@.len(),
            forall|j: int| 0 <= j < i ==> s@[j] != c,
        decreases n - i,
    {
        if s[i] == c {
            assert(s@[i as int] == c);
            return true;
        }
        i += 1;
    }
    false
}

/// `c` in lower case where it is an ASCII letter.
pub open spec fn lower(c: char) -> char {
    if 'A' <= c <= 'Z' {
        ((c as u32) + 32) as char
    } else {
        c
    }
}

/// `b` in lower case where it is an ASCII letter.
pub open spec fn lower_byte(b: u8) -> u8 {
    if 65 <= b <= 90 {
        (b + 32) as u8
    } else {
        b
    }
}

/// `s` with its ASCII letters in lower case.
pub open spec fn lowered(s: Seq<u8>) -> Seq<u8> {
    Seq::new(s.len(), |i: int| lower_byte(s[i]))
}

pub fn to_lower_byte(b: u8) -> (r: u8)
    ensures
        r == lower_byte(b),
{
    if 65 <= b && b <= 90 {
        b + 32
    } else {
        b
    }
}

pub proof fn lemma_trimmed_end(s: Seq<char>)
    ensures
        trimmed_end(s).len() <= s.len(),
        trimmed_end(s) == s.take(trimmed_end(s).len() as int),
        trimmed_end(s).len() > 0 ==> !is_space(trimmed_end(s).last()),
    decreases s.len(),
{
    if s.len() > 0 && is_space(s.last()) {
        lemma_trimmed_end(s.drop_last());
        let n = trimmed_end(s).len() as int;
        assert(s.drop_last().take(n) =~= s.take(n));
    } else {
        assert(s.take(s.len() as int) =~= s);
    }
}

pub proof fn lemma_trimmed_start_suffix(s: Seq<char>)
    ensures
        trimmed_start(s).len() <= s.len(),
        trimmed_start(s) == s.skip(s.len() - trimmed_start(s).len()),
        trimmed_start(s).len() > 0 ==> !is_space(trimmed_start(s)[0]),
    decreases s.len(),
{
    if s.len() > 0 && is_space(s[0]) {
        lemma_trimmed_start_suffix(s.skip(1));
        let n = trimmed_start(s).len() as int;
        assert(s.skip(1).skip(s.len() - 1 - n) =~= s.skip(s.len() - n));
    } else {
        assert(s.skip(0) =~= s);
    }
}

pub proof fn lemma_split_push(x: Seq<char>, y: Seq<char>, sep: char)
    requires
        !y.contains(sep),
    ensures
        split_at_each(x + seq![sep] + y, sep) == split_at_each(x, sep).push(y),
    decreases x.len(),
{
    let s = x + seq![sep] + y;
    lemma_until(x, sep);
    let n = until(x, sep) as int;
    assert forall|i: int| 0 <= i < n implies s[i] != sep by {
        assert(x[i] != sep);
    }
    lemma_until_is(s, sep, n);
    assert(s.take(n) =~= x.take(n));
    if n < x.len() {
        let rest = x.skip(n + 1);
        assert(s.skip(n + 1) =~= rest + seq![sep] + y);
        lemma_split_push(rest, y, sep);
        assert(split_at_each(s, sep) =~= split_at_each(x, sep).push(y));
    } else {
        assert(s.skip(n + 1) =~= y);
        assert forall|i: int| 0 <= i < y.len() implies y[i] != sep by {
            assert(y.contains(y[i]));
        }
        lemma_until_is(y, sep, y.len() as int);
        assert(x.take(n) =~= x);
        assert(split_at_each(y, sep) =~= seq![y]);
        assert(split_at_each(x, sep) =~= seq![x]);
        assert(split_at_each(s, sep) =~= seq![x].push(y));
    }
}

pub proof fn lemma_parts_hold_no_sep(s: Seq<char>, sep: char)
    ensures
        forall|i: int|
            0 <= i < split_at_each(s, sep).len() ==> !(#[trigger] split_at_each(
                s,
                sep,
            )[i]).contains(sep),
    decreases s.len(),
{
    lemma_until(s, sep);
    let n = until(s, sep) as int;
    let all = split_at_each(s, sep);
    let head = s.take(n);
    assert(!head.contains(sep)) by {
        if head.contains(sep) {
            let i = choose|i: int| 0 <= i < head.len() && head[i] == sep;
            assert(s[i] == sep);
        }
    }
    if n < s.len() {
        lemma_parts_hold_no_sep(s.skip(n + 1), sep);
        let rest = split_at_each(s.skip(n + 1), sep);
        assert(all == seq![head] + rest);
        assert forall|i: int| 0 <= i < all.len() implies !(#[trigger] all[i]).contains(sep) by {
            if i > 0 {
                assert(all[i] == rest[i - 1]);
            }
        }
    } else {
        assert(head =~= s);
    }
}

pub proof fn lemma_word_len_stops(t: Seq<char>, rest: Seq<char>)
    requires
        rest.len() > 0,
        is_space(rest[0]),
    ensures
        word_len(t + rest) == word_len(t),
        word_len(t) <= t.len(),
    decreases t.len(),
{
    let s = t + rest;
    if t.len() == 0 {
        assert(s[0] == rest[0]);
    } else if !is_space(t[0]) {
        assert(s.skip(1) =~= t.skip(1) + rest);
        lemma_word_len_stops(t.skip(1), rest);
        assert(s[0] == t[0]);
    } else {
        assert(s[0] == t[0]);
    }
}

pub proof fn lemma_trimmed_start_append(x: Seq<char>, rest: Seq<char>)
    ensures
        trimmed_start(x + rest) == (if trimmed_start(x).len() > 0 {
            trimmed_start(x) + rest
        } else {
            trimmed_start(rest)
        }),
    decreases x.len(),
{
    let s = x + rest;
    if x.len() == 0 {
        assert(s =~= rest);
    } else if is_space(x[0]) {
        assert(s[0] == x[0]);
        assert(s.skip(1) =~= x.skip(1) + rest);
        lemma_trimmed_start_append(x.skip(1), rest);
    } else {
        assert(s[0] == x[0]);
    }
}

/// A space parts words: the words of two texts with one between are the words
/// of both.
pub proof fn lemma_words_append(x: Seq<char>, y: Seq<char>)
    ensures
        words(x + seq![' '] + y) == words(x) + words(y),
    decreases x.len(),
{
    let rest = seq![' '] + y;
    let s = x + seq![' '] + y;
    assert(s =~= x + rest);
    lemma_trimmed_start_append(x, rest);
    lemma_trimmed_start(x);
    let t = trimmed_start(x);
    assert(rest.skip(1) =~= y);
    assert(trimmed_start(rest) == trimmed_start(y));
    if t.len() == 0 {
        lemma_trim_again(s);
        lemma_trim_again(y);
        assert(words(x) =~= seq![]);
        assert(words(x) + words(y) =~= words(y));
    } else {
        let k = word_len(t) as int;
        lemma_word_len_stops(t, rest);
        assert(k > 0);
        let u = t + rest;
        assert(u.take(k) =~= t.take(k));
        assert(u.skip(k) =~= t.skip(k) + seq![' '] + y);
        lemma_words_append(t.skip(k), y);
        assert(words(s) == seq![u.take(k)] + words(u.skip(k)));
        assert(words(x) == seq![t.take(k)] + words(t.skip(k)));
        assert(words(s) =~= words(x) + words(y));
    }
}

pub proof fn lemma_word_len_all(w: Seq<char>)
    requires
        forall|i: int| 0 <= i < w.len() ==> !is_space(#[trigger] w[i]),
    ensures
        word_len(w) == w.len(),
    decreases w.len(),
{
    if w.len() > 0 {
        assert forall|i: int| 0 <= i < w.skip(1).len() implies !is_space(
            #[trigger] w.skip(1)[i],
        ) by {
            assert(w.skip(1)[i] == w[i + 1]);
        }
        assert(!is_space(w[0]));
        lemma_word_len_all(w.skip(1));
    }
}

pub proof fn lemma_word_len_clean(t: Seq<char>)
    ensures
        word_len(t) <= t.len(),
        forall|i: int| 0 <= i < word_len(t) ==> !is_space(#[trigger] t[i]),
    decreases t.len(),
{
    if t.len() > 0 && !is_space(t[0]) {
        lemma_word_len_clean(t.skip(1));
        assert forall|i: int| 0 <= i < word_len(t) implies !is_space(
            #[trigger] t[i],
        ) by {
            if i > 0 {
                assert(t[i] == t.skip(1)[i - 1]);
            }
        }
    }
}

/// Among ASCII characters exactly the space, the tab, the two ends of a line and
/// the two feeds are white space.
pub proof fn ascii_white_space_is_six_characters(c: char)
    requires
        (c as u32) < 128,
    ensures
        is_space(c) <==> c as u32 == 9 || c as u32 == 10 || c as u32 == 11 || c as u32 == 12 || c as u32 == 13 || c
            as u32 == 32,
{
}

/// A text without white space is one word.
pub proof fn a_text_without_white_space_is_one_word(w: Seq<char>)
    requires
        w.len() > 0,
        forall|i: int| 0 <= i < w.len() ==> !is_space(#[trigger] w[i]),
    ensures
        words(w) == seq![w],
        trimmed(w) == w,
{
    lemma_word_len_all(w);
    let n = w.len() as int;
    assert(w.take(n) =~= w);
    assert(w.skip(n) =~= seq![]);
    assert(!is_space(w[0]));
    assert(!is_space(w[n - 1]));
    assert(words(w.skip(n)) =~= seq![]);
    assert(words(w) =~= seq![w]);
}

/// Trimming takes white space off both ends, all of it, and nothing else.
pub proof fn trimming_takes_exactly_the_outer_white_space(s: Seq<char>)
    ensures
        exists|from: int, to: int|
            #![trigger s.subrange(from, to)]
            0 <= from <= to <= s.len() && trimmed(s) == s.subrange(from, to) && (forall|i: int|
                0 <= i < s.len() && (i < from || i >= to) ==> is_space(#[trigger] s[i])),
        trimmed(s).len() > 0 ==> !is_space(trimmed(s)[0]) && !is_space(trimmed(s).last()),
{
    lemma_trimmed_start_suffix(s);
    lemma_trimmed_start_spaces(s);
    let t = trimmed_start(s);
    lemma_trimmed_end(t);
    lemma_trimmed_end_spaces(t);
    let from = s.len() - t.len();
    let to = from + trimmed_end(t).len();
    assert(trimmed(s) =~= s.subrange(from, to));
    assert forall|i: int| 0 <= i < s.len() && (i < from || i >= to) implies is_space(#[trigger] s[i]) by {
        if i >= to {
            assert(t[i - from] == s[i]);
        }
    }
}

proof fn lemma_trimmed_start_spaces(s: Seq<char>)
    ensures
        trimmed_start(s).len() <= s.len(),
        forall|i: int| 0 <= i < s.len() - trimmed_start(s).len() ==> is_space(#[trigger] s[i]),
    decreases s.len(),
{
    if s.len() > 0 && is_space(s[0]) {
        lemma_trimmed_start_spaces(s.skip(1));
        assert forall|i: int| 0 <= i < s.len() - trimmed_start(s).len() implies is_space(#[trigger] s[i]) by {
            if i > 0 {
                assert(s.skip(1)[i - 1] == s[i]);
            }
        }
    }
}

proof fn lemma_trimmed_end_spaces(s: Seq<char>)
    ensures
        trimmed_end(s).len() <= s.len(),
        forall|i: int| trimmed_end(s).len() <= i < s.len() ==> is_space(#[trigger] s[i]),
    decreases s.len(),
{
    if s.len() > 0 && is_space(s.last()) {
        lemma_trimmed_end_spaces(s.drop_last());
        assert forall|i: int| trimmed_end(s).len() <= i < s.len() implies is_space(#[trigger] s[i]) by {
            if i < s.len() - 1 {
                assert(s.drop_last()[i] == s[i]);
            }
        }
    }
}

/// The number that decimal digits write.
pub open spec fn number_of(s: Seq<char>) -> int
    decreases s.len(),
{
    if s.len() == 0 {
        0
    } else {
        number_of(s.drop_last()) * 10 + (s.last() as u32 - 48)
    }
}

/// A number is written in decimal digits that write it, with no zero before them.
pub proof fn decimals_write_their_number(n: nat)
    ensures
        number_of(decimal(n)) == n,
        forall|i: int| 0 <= i < decimal(n).len() ==> '0' <= #[trigger] decimal(n)[i] <= '9',
        decimal(n).len() > 1 ==> decimal(n)[0] != '0',
        decimal(n).len() > 0,
        n > 0 ==> decimal(n)[0] != '0',
        n < 10 ==> decimal(n).len() == 1,
        n < 100 ==> decimal(n).len() <= 2,
        n < 1000 ==> decimal(n).len() <= 3,
    decreases n,
{
    if n < 10 {
        let d = digit_char(n);
        assert(d as u32 == 48 + n);
        assert(decimal(n).drop_last() =~= seq![]);
        assert(number_of(decimal(n).drop_last()) == 0);
    } else {
        decimals_write_their_number(n / 10);
        let d = digit_char(n % 10);
        assert(d as u32 == 48 + n % 10);
        assert(decimal(n).drop_last() =~= decimal(n / 10));
    }
}

/// Splitting parts a text at every separator: a text without one is one part, and a
/// separator between two texts parts them.
pub proof fn separators_part_a_text(a: Seq<char>, b: Seq<char>, sep: char)
    requires
        !b.contains(sep),
    ensures
        split_at_each(b, sep) == seq![b],
        split_at_each(a + seq![sep] + b, sep) == split_at_each(a, sep).push(b),
{
    lemma_split_push(a, b, sep);
    assert forall|i: int| 0 <= i < b.len() implies b[i] != sep by {
        assert(b.contains(b[i]));
    }
    lemma_until_is(b, sep, b.len() as int);
    assert(split_at_each(b, sep) =~= seq![b]);
}

/// Lowering a character changes the capital ASCII letters and nothing else.
pub proof fn lowering_changes_capital_letters_only(c: char)
    ensures
        'A' <= c <= 'Z' ==> lower(c) as u32 == c as u32 + 32,
        !('A' <= c <= 'Z') ==> lower(c) == c,
        lower(lower(c)) == lower(c),
{
}

} // verus!
