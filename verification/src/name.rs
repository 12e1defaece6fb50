//! Names of hosts: as a client writes them, and as the domain name system
//! carries them.

use vstd::prelude::*;

#[allow(unused_imports)]
use crate::text;
use crate::text::{chars_of, same_chars, split_chars, string_of};

verus! {

/// The longest host a proxy can be asked for, in characters.
pub const MAX_DOMAIN: usize = 255;

/// Why a text names no host.
#[derive(Clone, Copy, Debug, PartialEq, Eq, Structural)]
pub enum DomainError {
    /// No characters at all.
    Empty,
    /// More than [`MAX_DOMAIN`] characters.
    TooLong,
    /// A space, a control or a character outside ASCII.
    Character,
}

/// A visible ASCII character.
pub open spec fn is_graphic(c: char) -> bool {
    '!' <= c <= '~'
}

/// What names a host: visible ASCII, not empty and not too long.
pub open spec fn is_domain(s: Seq<char>) -> bool {
    1 <= s.len() <= MAX_DOMAIN && forall|i: int| 0 <= i < s.len() ==> is_graphic(#[trigger] s[i])
}

/// A host as a client or a server names it.
#[derive(Debug, PartialEq, Eq)]
pub struct DomainName {
    text: String,
}

impl View for DomainName {
    type V = Seq<char>;

    closed spec fn view(&self) -> Seq<char> {
        self.text@
    }
}

impl DomainName {
    #[verifier::type_invariant]
    closed spec fn names_a_host(self) -> bool {
        is_domain(self.text@)
    }

    /// The host of `text`, if it names one.
    pub fn new(text: &str) -> (r: Result<Self, DomainError>)
        ensures
            r is Ok == is_domain(text@),
            r matches Ok(d) ==> d@ == text@,
            r matches Err(e) ==> e == (if text@.len() == 0 {
                DomainError::Empty
            } else if text@.len() > MAX_DOMAIN {
                DomainError::TooLong
            } else {
                DomainError::Character
            }),
    {
        let chars: Vec<char> = chars_of(text);
        let n: usize = chars.len();
        if n == 0 {
            return Err(DomainError::Empty);
        }
        if n > MAX_DOMAIN {
            return Err(DomainError::TooLong);
        }
        let mut i: usize = 0;
        while i < n
            invariant
                i <= n,
                n == chars@.len(),
                1 <= n <= MAX_DOMAIN,
                chars@ == text@,
                forall|j: int| 0 <= j < i ==> is_graphic(#[trigger] text@[j]),
            decreases n - i,
        {
            let c: char = chars[i];
            if c < '!' || c > '~' {
                assert(!is_graphic(text@[i as int]));
                return Err(DomainError::Character);
            }
            i += 1;
        }
        Ok(DomainName { text: string_of(chars.as_slice()) })
    }

    pub fn as_str(&self) -> (r: &str)
        ensures
            r@ == self@,
            is_domain(r@),
    {
        proof {
            use_type_invariant(self);
        }
        self.text.as_str()
    }
}

impl Clone for DomainName {
    fn clone(&self) -> (r: Self)
        ensures
            r@ == self@,
    {
        proof {
            use_type_invariant(self);
        }
        DomainName { text: self.text.clone() }
    }
}

/// The longest label, in bytes.
pub const MAX_LABEL: usize = 63;

/// The longest name in presentation form, in bytes.
pub const MAX_NAME: usize = 253;

/// How many bytes UTF-8 writes `c` in.
pub open spec fn width(c: char) -> nat {
    let n = c as u32;
    if n < 0x80 {
        1
    } else if n < 0x800 {
        2
    } else if n < 0x10000 {
        3
    } else {
        4
    }
}

/// How many bytes UTF-8 writes `s` in.
pub open spec fn byte_len(s: Seq<char>) -> nat
    decreases s.len(),
{
    if s.len() == 0 {
        0
    } else {
        byte_len(s.drop_last()) + width(s.last())
    }
}

proof fn lemma_byte_len_grows(s: Seq<char>, i: int)
    requires
        0 <= i <= s.len(),
    ensures
        byte_len(s.take(i)) <= byte_len(s),
    decreases s.len() - i,
{
    if i < s.len() {
        assert(s.take(i + 1).drop_last() =~= s.take(i));
        lemma_byte_len_grows(s, i + 1);
    } else {
        assert(s.take(i) =~= s);
    }
}

/// Whether UTF-8 writes `s` in at most `limit` bytes.
fn fits(s: &[char], limit: usize) -> (r: bool)
    requires
        limit <= 1000,
    ensures
        r == (byte_len(s@) <= limit),
{
    let n: usize = s.len();
    let mut i: usize = 0;
    let mut bytes: usize = 0;
    while i < n
        invariant
            i <= n,
            n == s@.len(),
            limit <= 1000,
            bytes <= limit,
            bytes == byte_len(s@.take(i as int)),
        decreases n - i,
    {
        let c: u32 = s[i] as u32;
        let w: usize = if c < 0x80 {
            1
        } else if c < 0x800 {
            2
        } else if c < 0x10000 {
            3
        } else {
            4
        };
        proof {
            assert(s@.take(i + 1).drop_last() =~= s@.take(i as int));
            lemma_byte_len_grows(s@, i + 1);
        }
        bytes = bytes + w;
        if bytes > limit {
            return false;
        }
        i += 1;
    }
    assert(s@.take(n as int) =~= s@);
    true
}

/// `s` with its ASCII letters in lower case.
pub open spec fn lowered(s: Seq<char>) -> Seq<char> {
    Seq::new(s.len(), |i: int| text::lower(s[i]))
}

/// `s` without the dot that may end an absolute name.
pub open spec fn relative(s: Seq<char>) -> Seq<char> {
    if s.len() > 0 && s.last() == '.' {
        s.drop_last()
    } else {
        s
    }
}

/// What a label may be: not empty, and not too long.
pub open spec fn is_label(s: Seq<char>) -> bool {
    1 <= byte_len(s) <= MAX_LABEL
}

/// The name that `s` writes: its labels in lower case with dots between, empty
/// for the root. `None` where the domain name system cannot carry it.
pub open spec fn name_of(s: Seq<char>) -> Option<Seq<char>> {
    let t = relative(s);
    let labels = text::split_at_each(t, '.');
    if t.len() == 0 {
        Some(seq![])
    } else if byte_len(t) <= MAX_NAME && forall|i: int|
        0 <= i < labels.len() ==> is_label(#[trigger] labels[i]) {
        Some(lowered(t))
    } else {
        None
    }
}

/// A name of the domain name system, in lower case.
#[derive(Clone, Debug, PartialEq, Eq)]
pub struct Name {
    chars: Vec<char>,
}

impl View for Name {
    type V = Seq<char>;

    closed spec fn view(&self) -> Seq<char> {
        self.chars@
    }
}

pub fn to_lower(c: char) -> (r: char)
    ensures
        r == text::lower(c),
{
    if 'A' <= c && c <= 'Z' {
        let b: u8 = c as u8;
        (b + 32) as char
    } else {
        c
    }
}

/// `s` with its ASCII letters in lower case.
pub fn to_lowered(s: &[char]) -> (r: Vec<char>)
    ensures
        r@ == lowered(s@),
{
    let mut r: Vec<char> = Vec::new();
    let n: usize = s.len();
    let mut i: usize = 0;
    while i < n
        invariant
            i <= n,
            n == s@.len(),
            r@ == lowered(s@).take(i as int),
        decreases n - i,
    {
        r.push(to_lower(s[i]));
        assert(r@ =~= lowered(s@).take(i + 1));
        i += 1;
    }
    assert(lowered(s@).take(n as int) =~= lowered(s@));
    r
}

impl Name {
    /// The name that `text` writes.
    pub fn parse(text: &str) -> (r: Option<Self>)
        ensures
            match r {
                Some(n) => name_of(text@) == Some(n@),
                None => name_of(text@) is None,
            },
    {
        let chars: Vec<char> = chars_of(text);
        Name::read(chars.as_slice())
    }

    /// The name that `s` writes.
    pub fn read(s: &[char]) -> (r: Option<Self>)
        ensures
            match r {
                Some(n) => name_of(s@) == Some(n@),
                None => name_of(s@) is None,
            },
    {
        let mut n: usize = s.len();
        if n > 0 && s[n - 1] == '.' {
            n = n - 1;
            assert(s@.drop_last() =~= s@.subrange(0, n as int));
        } else {
            assert(s@ =~= s@.subrange(0, n as int));
        }
        let t: &[char] = vstd::slice::slice_subrange(s, 0, n);
        assert(t@ == relative(s@));
        if n > 0 {
            if !fits(t, MAX_NAME) {
                return None;
            }
            let labels: Vec<Vec<char>> = split_chars(t, '.');
            let ghost parts = text::split_at_each(t@, '.');
            let count: usize = labels.len();
            let mut k: usize = 0;
            assert(parts.len() == count);
            while k < count
                invariant
                    k <= count,
                    count == labels@.len(),
                    parts == text::views(labels@),
                    parts == text::split_at_each(t@, '.'),
                    t@ == relative(s@),
                    t@.len() > 0,
                    forall|i: int| 0 <= i < k ==> is_label(#[trigger] parts[i]),
                decreases count - k,
            {
                let label: &[char] = labels[k].as_slice();
                assert(parts[k as int] == label@);
                if label.len() == 0 || !fits(label, MAX_LABEL) {
                    assert(!is_label(parts[k as int]));
                    return None;
                }
                proof {
                    assert(byte_len(label@) >= 1);
                }
                k += 1;
            }
            assert(text::split_at_each(t@, '.') == parts);
        }
        Some(Name { chars: to_lowered(t) })
    }

    pub fn is_root(&self) -> (r: bool)
        ensures
            r == (self@.len() == 0),
    {
        self.chars.len() == 0
    }

    pub fn as_chars(&self) -> (r: &[char])
        ensures
            r@ == self@,
    {
        self.chars.as_slice()
    }

    /// The name of characters that are one already.
    pub(crate) fn of(chars: Vec<char>) -> (r: Self)
        ensures
            r@ == chars@,
    {
        Name { chars }
    }

    /// The name in presentation form.
    pub fn text(&self) -> (r: String)
        ensures
            r@ == self@,
    {
        string_of(self.chars.as_slice())
    }

    pub fn same(&self, other: &[char]) -> (r: bool)
        ensures
            r == (self@ == other@),
    {
        same_chars(self.chars.as_slice(), other)
    }
}

proof fn lemma_lower(a: char, b: char)
    requires
        text::lower(a) == text::lower(b),
    ensures
        (a == '.') == (b == '.'),
        width(a) == width(b),
{
}

proof fn lemma_lowered(s: Seq<char>, t: Seq<char>)
    requires
        lowered(s) == lowered(t),
    ensures
        s.len() == t.len(),
        forall|i: int| 0 <= i < s.len() ==> text::lower(s[i]) == text::lower(#[trigger] t[i]),
        byte_len(s) == byte_len(t),
        text::until(s, '.') == text::until(t, '.'),
        text::split_at_each(s, '.').len() == text::split_at_each(t, '.').len(),
        forall|i: int|
            0 <= i < text::split_at_each(s, '.').len() ==> byte_len(
                #[trigger] text::split_at_each(s, '.')[i],
            ) == byte_len(text::split_at_each(t, '.')[i]),
    decreases s.len(),
{
    assert(s.len() == t.len()) by {
        assert(lowered(s).len() == s.len());
        assert(lowered(t).len() == t.len());
    }
    assert forall|i: int| 0 <= i < s.len() implies text::lower(s[i]) == text::lower(
        #[trigger] t[i],
    ) by {
        assert(lowered(s)[i] == text::lower(s[i]));
        assert(lowered(t)[i] == text::lower(t[i]));
    }
    if s.len() > 0 {
        lemma_lower(s.last(), t.last());
        assert(lowered(s.drop_last()) =~= lowered(t.drop_last()));
        lemma_lowered(s.drop_last(), t.drop_last());
    }
    text::lemma_until(s, '.');
    let n = text::until(s, '.') as int;
    assert forall|i: int| 0 <= i < n implies t[i] != '.' by {
        lemma_lower(s[i], t[i]);
    }
    if n < s.len() {
        lemma_lower(s[n], t[n]);
    }
    text::lemma_until_is(t, '.', n);
    if n < s.len() {
        assert(lowered(s.take(n)) =~= lowered(t.take(n)));
        assert(lowered(s.skip(n + 1)) =~= lowered(t.skip(n + 1)));
        lemma_lowered(s.take(n), t.take(n));
        lemma_lowered(s.skip(n + 1), t.skip(n + 1));
        let a = text::split_at_each(s.skip(n + 1), '.');
        let b = text::split_at_each(t.skip(n + 1), '.');
        assert(text::split_at_each(s, '.') =~= seq![s.take(n)] + a);
        assert(text::split_at_each(t, '.') =~= seq![t.take(n)] + b);
        assert forall|i: int| 0 <= i < text::split_at_each(s, '.').len() implies byte_len(
            #[trigger] text::split_at_each(s, '.')[i],
        ) == byte_len(text::split_at_each(t, '.')[i]) by {
            if i > 0 {
                assert(text::split_at_each(s, '.')[i] == a[i - 1]);
                assert(text::split_at_each(t, '.')[i] == b[i - 1]);
            }
        }
    } else {
        assert(text::split_at_each(s, '.') =~= seq![s]);
        assert(text::split_at_each(t, '.') =~= seq![t]);
    }
}

/// The case of ASCII letters does not tell names apart.
pub proof fn names_ignore_case(s: Seq<char>, t: Seq<char>)
    requires
        lowered(s) == lowered(t),
    ensures
        name_of(s) == name_of(t),
{
    lemma_lowered(s, t);
    if s.len() > 0 {
        lemma_lower(s.last(), t.last());
    }
    let a = relative(s);
    let b = relative(t);
    assert(lowered(a) =~= lowered(b));
    lemma_lowered(a, b);
    let p = text::split_at_each(a, '.');
    let q = text::split_at_each(b, '.');
    if forall|i: int| 0 <= i < p.len() ==> is_label(#[trigger] p[i]) {
        assert forall|i: int| 0 <= i < q.len() implies is_label(#[trigger] q[i]) by {
            assert(is_label(p[i]));
        }
    }
    if forall|i: int| 0 <= i < q.len() ==> is_label(#[trigger] q[i]) {
        assert forall|i: int| 0 <= i < p.len() implies is_label(#[trigger] p[i]) by {
            assert(is_label(q[i]));
        }
    }
}

/// Labels with dots between.
pub open spec fn dotted(labels: Seq<Seq<char>>) -> Seq<char>
    decreases labels.len(),
{
    if labels.len() == 0 {
        seq![]
    } else if labels.len() == 1 {
        labels[0]
    } else {
        dotted(labels.drop_last()) + seq!['.'] + labels.last()
    }
}

/// Labels are told apart by the dots between them.
pub proof fn dots_part_labels(labels: Seq<Seq<char>>)
    requires
        labels.len() > 0,
        forall|i: int| 0 <= i < labels.len() ==> !(#[trigger] labels[i]).contains('.'),
    ensures
        text::split_at_each(dotted(labels), '.') == labels,
    decreases labels.len(),
{
    assert(!labels[labels.len() - 1].contains('.'));
    if labels.len() == 1 {
        text::separators_part_a_text(labels[0], labels[0], '.');
        assert(labels =~= seq![labels[0]]);
    } else {
        let front = labels.drop_last();
        assert forall|i: int| 0 <= i < front.len() implies !(#[trigger] front[i]).contains('.') by {
            assert(front[i] == labels[i]);
        }
        dots_part_labels(front);
        text::separators_part_a_text(dotted(front), labels.last(), '.');
        assert(front.push(labels.last()) =~= labels);
    }
}

/// UTF-8 writes an ASCII character in one byte, and no character in less.
pub proof fn ascii_is_one_byte_each(s: Seq<char>)
    ensures
        byte_len(s) >= s.len(),
        (forall|i: int| 0 <= i < s.len() ==> (#[trigger] s[i] as u32) < 128) ==> byte_len(s) == s.len(),
    decreases s.len(),
{
    if s.len() > 0 {
        let front = s.drop_last();
        ascii_is_one_byte_each(front);
        if forall|i: int| 0 <= i < s.len() ==> (#[trigger] s[i] as u32) < 128 {
            assert forall|i: int| 0 <= i < front.len() implies (#[trigger] front[i] as u32) < 128 by {
                assert(front[i] == s[i]);
            }
            assert((s[s.len() - 1] as u32) < 128);
        }
    }
}

/// Which ASCII texts are names: labels of 1 to 63 characters with dots between,
/// 253 characters in all at most. The name is the text in lower case. A text with
/// an empty label, a longer label or more characters is none.
pub proof fn a_name_is_labels_with_dots_between(labels: Seq<Seq<char>>)
    requires
        labels.len() > 0,
        forall|i: int| 0 <= i < labels.len() ==> !(#[trigger] labels[i]).contains('.'),
        labels.last().len() > 0,
        forall|i: int| 0 <= i < dotted(labels).len() ==> (#[trigger] dotted(labels)[i] as u32) < 128,
    ensures
        name_of(dotted(labels)) is Some <==> dotted(labels).len() <= 253 && forall|i: int|
            0 <= i < labels.len() ==> 1 <= (#[trigger] labels[i]).len() <= 63,
        name_of(dotted(labels)) matches Some(n) ==> n.len() == dotted(labels).len() && forall|i: int|
            0 <= i < n.len() ==> #[trigger] n[i] == (if 'A' <= dotted(labels)[i] <= 'Z' {
                ((dotted(labels)[i] as u32) + 32) as char
            } else {
                dotted(labels)[i]
            }),
{
    let s = dotted(labels);
    let last = labels.last();
    assert(!labels[labels.len() - 1].contains('.'));
    assert(last.contains(last[last.len() - 1]));
    assert(s.len() > 0 && s.last() == last.last());
    dots_part_labels(labels);
    ascii_is_one_byte_each(s);
    lemma_labels_are_ascii(labels);
    assert forall|i: int| 0 <= i < labels.len() implies byte_len(#[trigger] labels[i]) == labels[i].len() by {
        ascii_is_one_byte_each(labels[i]);
    }
    if forall|i: int| 0 <= i < labels.len() ==> 1 <= (#[trigger] labels[i]).len() <= 63 {
        assert forall|i: int| 0 <= i < labels.len() implies is_label(#[trigger] labels[i]) by {
            assert(1 <= labels[i].len() <= 63);
        }
    }
    if forall|i: int| 0 <= i < labels.len() ==> is_label(#[trigger] labels[i]) {
        assert forall|i: int| 0 <= i < labels.len() implies 1 <= (#[trigger] labels[i]).len() <= 63 by {
            assert(is_label(labels[i]));
        }
    }
}

proof fn lemma_labels_are_ascii(labels: Seq<Seq<char>>)
    requires
        forall|i: int| 0 <= i < dotted(labels).len() ==> (#[trigger] dotted(labels)[i] as u32) < 128,
    ensures
        forall|k: int, i: int|
            0 <= k < labels.len() && 0 <= i < labels[k].len() ==> (#[trigger] labels[k][i] as u32) < 128,
    decreases labels.len(),
{
    if labels.len() == 1 {
        assert forall|k: int, i: int| 0 <= k < labels.len() && 0 <= i < labels[k].len() implies (
        #[trigger] labels[k][i] as u32) < 128 by {
            assert(dotted(labels)[i] == labels[k][i]);
        }
    } else if labels.len() > 1 {
        let front = labels.drop_last();
        let s = dotted(labels);
        assert forall|i: int| 0 <= i < dotted(front).len() implies (#[trigger] dotted(front)[i] as u32) < 128 by {
            assert(s[i] == dotted(front)[i]);
        }
        lemma_labels_are_ascii(front);
        assert forall|k: int, i: int| 0 <= k < labels.len() && 0 <= i < labels[k].len() implies (
        #[trigger] labels[k][i] as u32) < 128 by {
            if k < front.len() {
                assert(front[k][i] == labels[k][i]);
            } else {
                assert(s[dotted(front).len() + 1 + i] == labels[k][i]);
            }
        }
    }
}

/// A dot at the end says that a name is absolute, and changes nothing else; a dot
/// alone, or no text, is the root.
pub proof fn a_last_dot_changes_nothing(s: Seq<char>)
    ensures
        s.len() > 0 && s.last() != '.' ==> name_of(s.push('.')) == name_of(s),
        s.len() == 0 ==> name_of(s) == Some(Seq::<char>::empty()) && name_of(s.push('.')) == Some(
            Seq::<char>::empty(),
        ),
{
    assert(s.push('.').drop_last() =~= s);
}

/// What names a host to a proxy: one to 255 visible ASCII characters, as they are. Anything
/// else is refused for the first of these that it lacks.
pub proof fn a_host_is_visible_ascii(text: &str, r: Result<DomainName, DomainError>)
    requires
        call_ensures(DomainName::new, (text,), r),
    ensures
        r is Ok <==> 1 <= text@.len() <= 255 && forall|i: int|
            0 <= i < text@.len() ==> '!' <= #[trigger] text@[i] <= '~',
        r matches Ok(host) ==> host@ == text@,
        text@.len() == 0 <==> r == Err::<DomainName, DomainError>(DomainError::Empty),
        text@.len() > 255 <==> r == Err::<DomainName, DomainError>(DomainError::TooLong),
{
    if is_domain(text@) {
        assert forall|i: int| 0 <= i < text@.len() implies '!' <= #[trigger] text@[i] <= '~' by {
            assert(is_graphic(text@[i]));
        }
    }
    if forall|i: int| 0 <= i < text@.len() ==> '!' <= #[trigger] text@[i] <= '~' {
        assert forall|i: int| 0 <= i < text@.len() implies is_graphic(#[trigger] text@[i]) by {}
    }
}

} // verus!
