//! Element-hiding rules: selectors, the stylesheet they make, and the hash that
//! names it in a policy.

use vstd::prelude::*;

#[allow(unused_imports)]
use crate::fields;
#[allow(unused_imports)]
use crate::text;
use crate::text::{chars_of, push_text, same_chars, string_of};

verus! {

/// Whether `a` comes before `b` by their characters.
pub open spec fn before(a: Seq<char>, b: Seq<char>) -> bool
    decreases a.len(),
{
    if b.len() == 0 {
        false
    } else if a.len() == 0 {
        true
    } else {
        a[0] < b[0] || (a[0] == b[0] && before(a.skip(1), b.skip(1)))
    }
}

fn comes_before(a: &[char], b: &[char]) -> (r: bool)
    ensures
        r == before(a@, b@),
{
    let mut i: usize = 0;
    assert(a@.skip(0) =~= a@);
    assert(b@.skip(0) =~= b@);
    while i < a.len() && i < b.len() && a[i] == b[i]
        invariant
            i <= a@.len(),
            i <= b@.len(),
            before(a@.skip(i as int), b@.skip(i as int)) == before(a@, b@),
        decreases a@.len() - i,
    {
        assert(a@.skip(i as int).skip(1) =~= a@.skip(i + 1));
        assert(b@.skip(i as int).skip(1) =~= b@.skip(i + 1));
        i += 1;
    }
    if i >= b.len() {
        return false;
    }
    if i >= a.len() {
        return true;
    }
    a[i] < b[i]
}

/// A sequence in order with one more element in its place, or as it is where
/// it holds the element.
pub open spec fn placed(s: Seq<Seq<char>>, x: Seq<char>) -> Seq<Seq<char>>
    decreases s.len(),
{
    if s.len() == 0 {
        seq![x]
    } else if s.last() == x {
        s
    } else if before(s.last(), x) {
        s.push(x)
    } else {
        placed(s.drop_last(), x).push(s.last())
    }
}

/// The elements in order, none twice.
pub open spec fn ordered(s: Seq<Seq<char>>) -> Seq<Seq<char>>
    decreases s.len(),
{
    if s.len() == 0 {
        seq![]
    } else {
        placed(ordered(s.drop_last()), s.last())
    }
}

fn place(v: &mut Vec<Vec<char>>, x: Vec<char>)
    ensures
        text::views(final(v)@) == placed(text::views(old(v)@), x@),
{
    let ghost all = text::views(v@);
    let mut i: usize = v.len();
    assert(all.take(i as int) =~= all);
    assert(placed(all.take(i as int), x@) + all.skip(i as int) =~= placed(all, x@));
    while i > 0
        invariant
            i <= v@.len(),
            *v == *old(v),
            all == text::views(v@),
            placed(all.take(i as int), x@) + all.skip(i as int) == placed(all, x@),
        decreases i,
    {
        let ghost t = all.take(i as int);
        assert(t.last() == v@[i - 1]@);
        if same_chars(v[i - 1].as_slice(), x.as_slice()) {
            assert(t + all.skip(i as int) =~= all);
            return;
        }
        if comes_before(v[i - 1].as_slice(), x.as_slice()) {
            v.insert(i, x);
            proof {
                assert(text::views(v@) =~= t.push(x@) + all.skip(i as int));
            }
            return;
        }
        proof {
            assert(t.drop_last() =~= all.take(i - 1));
            assert(placed(all.take(i - 1), x@).push(t.last()) + all.skip(i as int) =~= placed(
                all.take(i - 1),
                x@,
            ) + all.skip(i - 1));
        }
        i -= 1;
    }
    v.insert(0, x);
    assert(text::views(v@) =~= seq![x@] + all.skip(0));
}

/// The texts of strings.
pub open spec fn texts(s: Seq<String>) -> Seq<Seq<char>> {
    Seq::new(s.len(), |i: int| s[i]@)
}

fn in_order(selectors: &Vec<String>) -> (r: Vec<Vec<char>>)
    ensures
        text::views(r@) == ordered(texts(selectors@)),
{
    let ghost all = texts(selectors@);
    let mut r: Vec<Vec<char>> = Vec::new();
    let n: usize = selectors.len();
    let mut i: usize = 0;
    assert(all.take(0) =~= seq![]);
    assert(text::views(r@) =~= seq![]);
    while i < n
        invariant
            i <= n,
            n == selectors@.len(),
            all == texts(selectors@),
            text::views(r@) == ordered(all.take(i as int)),
        decreases n - i,
    {
        proof {
            assert(all.take(i + 1).drop_last() =~= all.take(i as int));
            assert(all.take(i + 1).last() == selectors@[i as int]@);
        }
        place(&mut r, chars_of(selectors[i].as_str()));
        i += 1;
    }
    assert(all.take(n as int) =~= all);
    r
}

/// The texts with commas between.
pub open spec fn listed(s: Seq<Seq<char>>) -> Seq<char>
    decreases s.len(),
{
    if s.len() == 0 {
        seq![]
    } else if s.len() == 1 {
        s[0]
    } else {
        listed(s.drop_last()) + ","@ + s.last()
    }
}

fn join(v: &Vec<Vec<char>>) -> (r: String)
    ensures
        r@ == listed(text::views(v@)),
{
    let ghost all = text::views(v@);
    let mut r = String::new();
    let n: usize = v.len();
    let mut i: usize = 0;
    assert(all.take(0) =~= seq![]);
    assert(r@ =~= seq![]);
    while i < n
        invariant
            i <= n,
            n == v@.len(),
            all == text::views(v@),
            r@ == listed(all.take(i as int)),
        decreases n - i,
    {
        if i > 0 {
            push_text(&mut r, ",");
        }
        let part: String = string_of(v[i].as_slice());
        push_text(&mut r, part.as_str());
        proof {
            assert(all.take(i + 1).drop_last() =~= all.take(i as int));
            assert(all.take(i + 1).last() == v@[i as int]@);
            assert(r@ =~= listed(all.take(i + 1)));
        }
        i += 1;
    }
    assert(all.take(n as int) =~= all);
    r
}

/// How deep functions may nest in a list of selectors. The parser descends once
/// for each, and the stack of a thread of the usual size bears about twice as
/// many.
pub const MAX_NESTING: u64 = 256;

/// Where in a text a reading stands.
#[derive(Clone, Copy, Debug, PartialEq, Eq, Structural)]
pub enum Place {
    Plain,
    /// In a string that began with this quote.
    Quote(char),
    Comment,
}

/// A reading of a list of selectors, as far as functions nest in it.
pub struct Reading {
    /// Functions that are open here.
    pub open: int,
    /// The most that were open anywhere.
    pub most: int,
    pub place: Place,
    /// Whether the next character is escaped.
    pub escaped: bool,
    /// The last character, where it may begin or end a comment.
    pub last: char,
}

/// The reading of nothing.
pub open spec fn unread() -> Reading {
    Reading { open: 0, most: 0, place: Place::Plain, escaped: false, last: ' ' }
}

/// The reading with one character more.
pub open spec fn read_on(r: Reading, c: char) -> Reading {
    if r.escaped {
        Reading { escaped: false, last: ' ', ..r }
    } else {
        match r.place {
            Place::Comment => if r.last == '*' && c == '/' {
                Reading { place: Place::Plain, last: ' ', ..r }
            } else {
                Reading { last: c, ..r }
            },
            Place::Quote(quote) => Reading {
                place: if c == quote {
                    Place::Plain
                } else {
                    r.place
                },
                escaped: c == '\\',
                last: ' ',
                ..r
            },
            Place::Plain => if c == '\\' {
                Reading { escaped: true, last: ' ', ..r }
            } else if c == '"' || c == '\'' {
                Reading { place: Place::Quote(c), last: ' ', ..r }
            } else if r.last == '/' && c == '*' {
                Reading { place: Place::Comment, last: ' ', ..r }
            } else if c == '(' {
                Reading {
                    open: r.open + 1,
                    most: if r.open + 1 > r.most {
                        r.open + 1
                    } else {
                        r.most
                    },
                    last: c,
                    ..r
                }
            } else if c == ')' && r.open > 0 {
                Reading { open: r.open - 1, last: c, ..r }
            } else {
                Reading { last: c, ..r }
            },
        }
    }
}

/// The reading of a text.
pub open spec fn reading(s: Seq<char>) -> Reading
    decreases s.len(),
{
    if s.len() == 0 {
        unread()
    } else {
        read_on(reading(s.drop_last()), s.last())
    }
}

/// How deep functions nest in a text. What stands in strings and comments, or
/// is escaped, opens and closes nothing.
pub open spec fn nesting(s: Seq<char>) -> int {
    reading(s).most
}

/// Whether functions nest in a text no deeper than the parser may descend.
fn nests_little(s: &[char]) -> (r: bool)
    ensures
        r == (nesting(s@) <= MAX_NESTING),
{
    let n: usize = s.len();
    let mut i: usize = 0;
    let mut open: u64 = 0;
    let mut most: u64 = 0;
    let mut place: Place = Place::Plain;
    let mut escaped: bool = false;
    let mut last: char = ' ';
    assert(s@.take(0) =~= seq![]);
    while i < n
        invariant
            i <= n,
            n == s@.len(),
            0 <= open <= most <= i,
            reading(s@.take(i as int)) == (Reading {
                open: open as int,
                most: most as int,
                place,
                escaped,
                last,
            }),
        decreases n - i,
    {
        let c: char = s[i];
        assert(s@.take(i + 1).drop_last() =~= s@.take(i as int));
        if escaped {
            escaped = false;
            last = ' ';
        } else {
            match place {
                Place::Comment => {
                    if last == '*' && c == '/' {
                        place = Place::Plain;
                        last = ' ';
                    } else {
                        last = c;
                    }
                },
                Place::Quote(quote) => {
                    if c == quote {
                        place = Place::Plain;
                    }
                    escaped = c == '\\';
                    last = ' ';
                },
                Place::Plain => {
                    if c == '\\' {
                        escaped = true;
                        last = ' ';
                    } else if c == '"' || c == '\'' {
                        place = Place::Quote(c);
                        last = ' ';
                    } else if last == '/' && c == '*' {
                        place = Place::Comment;
                        last = ' ';
                    } else if c == '(' {
                        open = open + 1;
                        if open > most {
                            most = open;
                        }
                        last = c;
                    } else if c == ')' && open > 0 {
                        open = open - 1;
                        last = c;
                    } else {
                        last = c;
                    }
                },
            }
        }
        i += 1;
    }
    assert(s@.take(n as int) =~= s@);
    most <= MAX_NESTING
}

/// Whether a text is a list of selectors, as `lol_html::Selector` parses them.
pub uninterp spec fn is_selector(s: Seq<char>) -> bool;

/// `lol_html::Selector::from_str`: whether the text parses as a list of
/// selectors. The grammar is the crate's, named and not written out here. The
/// parser descends once for each function inside another, so texts that nest
/// deep are left out.
#[verifier::external_body]
fn parses(s: &str) -> (r: bool)
    requires
        nesting(s@) <= MAX_NESTING,
    ensures
        r == is_selector(s@),
{
    s.parse::<lol_html::Selector>().is_ok()
}

/// The longest input that has a SHA-256 digest, in bytes.
pub const DIGEST_LIMIT: u64 = 0x1fff_ffff_ffff_ffff;

/// The SHA-256 digest of bytes.
pub uninterp spec fn sha256(bytes: Seq<u8>) -> Seq<u8>;

/// `ring::digest::digest` with `SHA256`: 32 bytes that depend on the input
/// alone. The hash is named and not written out here.
#[verifier::external_body]
fn digest(bytes: &[u8]) -> (r: Vec<u8>)
    requires
        bytes@.len() <= DIGEST_LIMIT,
    ensures
        r@ == sha256(bytes@),
        r@.len() == 32,
{
    ring::digest::digest(&ring::digest::SHA256, bytes).as_ref().to_vec()
}

/// Bytes in base 64 with the standard alphabet and padding.
pub uninterp spec fn base64_text(bytes: Seq<u8>) -> Seq<char>;

/// `base64::engine::general_purpose::STANDARD.encode`: the text depends on the
/// bytes alone. The encoding is named and not written out here.
#[verifier::external_body]
fn base64(bytes: &[u8]) -> (r: String)
    requires
        bytes@.len() <= 1024,
    ensures
        r@ == base64_text(bytes@),
{
    base64::Engine::encode(&base64::engine::general_purpose::STANDARD, bytes)
}

/// The stylesheet that hides a list of selectors.
pub open spec fn stylesheet(selectors: Seq<char>) -> Seq<char> {
    selectors + "{display:none!important}"@
}

/// The source expression that names a stylesheet in a policy.
pub open spec fn source_of(style: Seq<char>) -> Seq<char> {
    "'sha256-"@ + base64_text(sha256(fields::ascii(style))) + "'"@
}

/// Element-hiding rules for one host.
#[derive(Debug)]
pub struct HidingRules {
    selector: String,
    style: String,
    source: String,
    count: usize,
}

impl HidingRules {
    /// The selectors as one list.
    pub closed spec fn selector_text(&self) -> Seq<char> {
        self.selector@
    }

    pub closed spec fn style_text(&self) -> Seq<char> {
        self.style@
    }

    pub closed spec fn source_text(&self) -> Seq<char> {
        self.source@
    }

    pub closed spec fn selectors(&self) -> nat {
        self.count as nat
    }

    /// Compiles a set of selectors; `None` where there is none, they nest too
    /// deep, or they do not parse.
    pub fn compile(selectors: Vec<String>) -> (r: Option<Self>)
        requires
            fields::ascii(stylesheet(listed(ordered(texts(selectors@))))).len() <= DIGEST_LIMIT,
        ensures
            r is Some == (selectors@.len() > 0 && nesting(listed(ordered(texts(selectors@))))
                <= MAX_NESTING && is_selector(listed(ordered(texts(selectors@))))),
            r matches Some(rules) ==> rules.selector_text() == listed(ordered(texts(selectors@)))
                && rules.style_text() == stylesheet(listed(ordered(texts(selectors@))))
                && rules.source_text() == source_of(
                stylesheet(listed(ordered(texts(selectors@)))),
            ) && rules.selectors() == ordered(texts(selectors@)).len(),
    {
        if selectors.len() == 0 {
            return None;
        }
        let distinct: Vec<Vec<char>> = in_order(&selectors);
        let count: usize = distinct.len();
        assert(text::views(distinct@).len() == count);
        let list: String = join(&distinct);
        let read: Vec<char> = chars_of(list.as_str());
        if !nests_little(read.as_slice()) {
            return None;
        }
        if !parses(list.as_str()) {
            return None;
        }
        let mut style: String = list.clone();
        push_text(&mut style, "{display:none!important}");
        let named: Vec<u8> = digest(style.as_str().as_bytes());
        let encoded: String = base64(named.as_slice());
        let mut source: String = String::new();
        push_text(&mut source, "'sha256-");
        push_text(&mut source, encoded.as_str());
        push_text(&mut source, "'");
        assert(source@ =~= source_of(style@));
        Some(HidingRules { selector: list, style, source, count })
    }

    /// The selectors as one list.
    pub fn selector(&self) -> (r: &str)
        ensures
            r@ == self.selector_text(),
    {
        self.selector.as_str()
    }

    /// The stylesheet that the source names.
    pub fn style(&self) -> (r: &str)
        ensures
            r@ == self.style_text(),
    {
        self.style.as_str()
    }

    /// The source expression that lets the stylesheet through.
    pub fn source(&self) -> (r: &str)
        ensures
            r@ == self.source_text(),
    {
        self.source.as_str()
    }

    /// How many selectors the rules hold.
    pub fn len(&self) -> (n: usize)
        ensures
            n == self.selectors(),
    {
        self.count
    }

    /// Rules are never empty: none are compiled from no selectors.
    pub fn is_empty(&self) -> (r: bool)
        ensures
            !r,
    {
        false
    }
}

/// Where element-hiding rules come from.
pub trait CosmeticSource {
    /// The rules for `host`, if any apply.
    fn rules(&self, host: &str) -> Option<&HidingRules>;
}

/// Hides nothing.
#[derive(Clone, Copy, Debug, Default)]
pub struct NoCosmetics;

impl CosmeticSource for NoCosmetics {
    fn rules(&self, host: &str) -> (r: Option<&HidingRules>)
        ensures
            r is None,
    {
        None
    }
}

/// Whether each element comes before the next.
pub open spec fn ascending(s: Seq<Seq<char>>) -> bool {
    forall|i: int, j: int| 0 <= i < j < s.len() ==> before(#[trigger] s[i], #[trigger] s[j])
}

proof fn lemma_before_irreflexive(a: Seq<char>)
    ensures
        !before(a, a),
    decreases a.len(),
{
    if a.len() > 0 {
        lemma_before_irreflexive(a.skip(1));
    }
}

proof fn lemma_before_total(a: Seq<char>, b: Seq<char>)
    ensures
        a == b || before(a, b) || before(b, a),
    decreases a.len(),
{
    if a.len() == 0 {
        if b.len() == 0 {
            assert(a =~= b);
        }
    } else if b.len() > 0 {
        if a[0] == b[0] {
            lemma_before_total(a.skip(1), b.skip(1));
            if a.skip(1) == b.skip(1) {
                assert(a =~= seq![a[0]] + a.skip(1));
                assert(b =~= seq![b[0]] + b.skip(1));
            }
        }
    }
}

proof fn lemma_before_transitive(a: Seq<char>, b: Seq<char>, c: Seq<char>)
    requires
        before(a, b),
        before(b, c),
    ensures
        before(a, c),
    decreases a.len(),
{
    if a.len() > 0 && a[0] == b[0] && b[0] == c[0] {
        lemma_before_transitive(a.skip(1), b.skip(1), c.skip(1));
    }
}

proof fn lemma_placed(s: Seq<Seq<char>>, x: Seq<char>)
    requires
        ascending(s),
    ensures
        ascending(placed(s, x)),
        forall|y: Seq<char>|
            #![trigger placed(s, x).contains(y)]
            placed(s, x).contains(y) == (s.contains(y) || y == x),
    decreases s.len(),
{
    let r = placed(s, x);
    if s.len() == 0 {
        assert(r[0] == x);
    } else if s.last() == x {
        assert(s[s.len() - 1] == x);
    } else if before(s.last(), x) {
        assert forall|i: int, j: int| 0 <= i < j < r.len() implies before(
            #[trigger] r[i],
            #[trigger] r[j],
        ) by {
            if j == s.len() && i < s.len() - 1 {
                assert(before(s[i], s[s.len() - 1]));
                lemma_before_transitive(s[i], s.last(), x);
            }
        }
        assert forall|y: Seq<char>| #![trigger r.contains(y)] r.contains(y) == (s.contains(y) || y
            == x) by {
            if s.contains(y) {
                let k = choose|k: int| 0 <= k < s.len() && s[k] == y;
                assert(r[k] == y);
            }
            assert(r[s.len() as int] == x);
            if r.contains(y) {
                let k = choose|k: int| 0 <= k < r.len() && r[k] == y;
                if k < s.len() {
                    assert(s[k] == y);
                }
            }
        }
    } else {
        let rest = s.drop_last();
        lemma_placed(rest, x);
        lemma_before_total(s.last(), x);
        let p = placed(rest, x);
        assert forall|i: int| 0 <= i < p.len() implies before(#[trigger] p[i], s.last()) by {
            assert(p.contains(p[i]));
            if p[i] != x {
                assert(rest.contains(p[i]));
                let k = choose|k: int| 0 <= k < rest.len() && rest[k] == p[i];
                assert(before(s[k], s[s.len() - 1]));
            }
        }
        assert forall|i: int, j: int| 0 <= i < j < r.len() implies before(
            #[trigger] r[i],
            #[trigger] r[j],
        ) by {
            if j == p.len() {
                assert(before(p[i], s.last()));
            } else {
                assert(before(p[i], p[j]));
            }
        }
        assert forall|y: Seq<char>| #![trigger r.contains(y)] r.contains(y) == (s.contains(y) || y
            == x) by {
            if r.contains(y) {
                let k = choose|k: int| 0 <= k < r.len() && r[k] == y;
                if k < p.len() {
                    assert(p.contains(y));
                    if y != x {
                        let m = choose|m: int| 0 <= m < rest.len() && rest[m] == y;
                        assert(s[m] == y);
                    }
                } else {
                    assert(s[s.len() - 1] == y);
                }
            }
            if s.contains(y) || y == x {
                if y == s.last() {
                    assert(r[p.len() as int] == y);
                } else {
                    if s.contains(y) {
                        let m = choose|m: int| 0 <= m < s.len() && s[m] == y;
                        assert(rest[m] == y);
                    }
                    assert(p.contains(y));
                    let k = choose|k: int| 0 <= k < p.len() && p[k] == y;
                    assert(r[k] == y);
                }
            }
        }
    }
}

/// Ordering keeps exactly the elements, each once, in ascending order.
pub proof fn ordering_keeps_the_elements(s: Seq<Seq<char>>)
    ensures
        ascending(ordered(s)),
        forall|y: Seq<char>|
            #![trigger ordered(s).contains(y)]
            ordered(s).contains(y) == s.contains(y),
    decreases s.len(),
{
    if s.len() > 0 {
        let rest = s.drop_last();
        ordering_keeps_the_elements(rest);
        lemma_placed(ordered(rest), s.last());
        assert forall|y: Seq<char>| #![trigger ordered(s).contains(y)] ordered(s).contains(y)
            == s.contains(y) by {
            if s.contains(y) {
                let k = choose|k: int| 0 <= k < s.len() && s[k] == y;
                if k < rest.len() {
                    assert(rest[k] == y);
                    assert(ordered(rest).contains(y));
                }
            }
            if ordered(rest).contains(y) {
                let k = choose|k: int| 0 <= k < rest.len() && rest[k] == y;
                assert(s[k] == y);
            }
            assert(s[s.len() - 1] == s.last());
        }
    }
}

proof fn lemma_ascending_unique(a: Seq<Seq<char>>, b: Seq<Seq<char>>)
    requires
        ascending(a),
        ascending(b),
        forall|y: Seq<char>| #![trigger a.contains(y)] a.contains(y) == b.contains(y),
    ensures
        a == b,
    decreases a.len() + b.len(),
{
    if a.len() == 0 {
        if b.len() > 0 {
            assert(b.contains(b[0]));
            assert(a.contains(b[0]));
        }
        assert(a =~= b);
    } else {
        assert(a.contains(a.last())) by {
            assert(a[a.len() - 1] == a.last());
        }
        assert(b.contains(a.last()));
        assert(b.contains(b.last())) by {
            assert(b[b.len() - 1] == b.last());
        }
        assert(a.contains(b.last()));
        let i = choose|i: int| 0 <= i < a.len() && a[i] == b.last();
        let j = choose|j: int| 0 <= j < b.len() && b[j] == a.last();
        if a.last() != b.last() {
            assert(before(a[i], a[a.len() - 1]));
            assert(before(b[j], b[b.len() - 1]));
            lemma_before_transitive(b.last(), a.last(), b.last());
            lemma_before_irreflexive(b.last());
        }
        let x = a.drop_last();
        let y = b.drop_last();
        assert forall|z: Seq<char>| #![trigger x.contains(z)] x.contains(z) == y.contains(z) by {
            if x.contains(z) {
                let k = choose|k: int| 0 <= k < x.len() && x[k] == z;
                assert(a[k] == z);
                assert(a.contains(z));
                assert(before(a[k], a[a.len() - 1]));
                lemma_before_irreflexive(a.last());
                let m = choose|m: int| 0 <= m < b.len() && b[m] == z;
                assert(m < y.len());
                assert(y[m] == z);
            }
            if y.contains(z) {
                let k = choose|k: int| 0 <= k < y.len() && y[k] == z;
                assert(b[k] == z);
                assert(b.contains(z));
                assert(a.contains(z));
                assert(before(b[k], b[b.len() - 1]));
                lemma_before_irreflexive(b.last());
                let m = choose|m: int| 0 <= m < a.len() && a[m] == z;
                assert(m < x.len());
                assert(x[m] == z);
            }
        }
        lemma_ascending_unique(x, y);
        assert(a =~= x.push(a.last()));
        assert(b =~= y.push(b.last()));
    }
}

/// The stylesheet and its hash do not depend on the order in which selectors
/// are given, nor on how often.
pub proof fn selector_order_does_not_matter(a: Seq<Seq<char>>, b: Seq<Seq<char>>)
    requires
        forall|y: Seq<char>| #![trigger a.contains(y)] a.contains(y) == b.contains(y),
    ensures
        ordered(a) == ordered(b),
        source_of(stylesheet(listed(ordered(a)))) == source_of(stylesheet(listed(ordered(b)))),
{
    ordering_keeps_the_elements(a);
    ordering_keeps_the_elements(b);
    assert forall|y: Seq<char>| #![trigger ordered(a).contains(y)] ordered(a).contains(y)
        == ordered(b).contains(y) by {
        assert(a.contains(y) == b.contains(y));
        assert(ordered(b).contains(y) == b.contains(y));
    }
    lemma_ascending_unique(ordered(a), ordered(b));
}

/// Texts are ordered by their characters: by the first that differs, and a text before
/// every longer one that starts with it.
pub proof fn texts_are_ordered_by_the_first_difference(a: Seq<char>, b: Seq<char>, n: int)
    requires
        0 <= n <= a.len(),
        n <= b.len(),
        forall|i: int| 0 <= i < n ==> a[i] == b[i],
    ensures
        n < a.len() && n < b.len() && a[n] < b[n] ==> before(a, b) && !before(b, a),
        n == a.len() && n < b.len() ==> before(a, b) && !before(b, a),
        n == a.len() && n == b.len() ==> !before(a, b),
    decreases n,
{
    if n > 0 {
        let x = a.skip(1);
        let y = b.skip(1);
        assert(a[0] == b[0]);
        assert forall|i: int| 0 <= i < n - 1 implies x[i] == y[i] by {
            assert(a[i + 1] == b[i + 1]);
        }
        texts_are_ordered_by_the_first_difference(x, y, n - 1);
    }
}

/// Selectors are listed with commas between, in order.
pub proof fn selectors_are_listed_with_commas(s: Seq<Seq<char>>, one: Seq<char>)
    ensures
        listed(seq![one]) == one,
        s.len() > 0 ==> listed(s.push(one)) == listed(s) + seq![','] + one,
        stylesheet(one) == one + "{display:none!important}"@,
{
    reveal_strlit(",");
    assert(","@ =~= seq![',']);
    assert(s.push(one).drop_last() =~= s);
}

/// What nests: outside strings and comments a bracket opens or closes a function, and the
/// deepest point counts. Inside a string nothing does, up to the quote that ends it;
/// nothing that is escaped does either.
pub proof fn only_plain_brackets_nest(s: Seq<char>, c: char)
    ensures
        ({
            let here = reading(s);
            let next = reading(s.push(c));
            &&& here.place == Place::Plain && !here.escaped && c == '(' ==> next.open == here.open + 1 && nesting(
                s.push(c),
            ) == (if here.open + 1 > nesting(s) { here.open + 1 } else { nesting(s) })
            &&& here.place == Place::Plain && !here.escaped && c == ')' && here.open > 0 ==> next.open == here.open - 1
                && nesting(s.push(c)) == nesting(s)
            &&& c != '(' && c != ')' ==> next.open == here.open && nesting(s.push(c)) == nesting(s)
            &&& here.escaped || here.place != Place::Plain ==> next.open == here.open && nesting(s.push(c)) == nesting(s)
            &&& here.place == Place::Plain && !here.escaped && (c == '"' || c == '\'') ==> next.place == Place::Quote(c)
            &&& here.place == Place::Quote(c) && !here.escaped ==> next.place == Place::Plain
            &&& (here.place matches Place::Quote(quote) && (c != quote || here.escaped)) ==> next.place == here.place
            &&& here.place != Place::Comment && !here.escaped && c == '\\' ==> next.escaped
            &&& here.escaped ==> !next.escaped && next.place == here.place
        }),
        nesting(seq![]) == 0,
        reading(seq![]).place == Place::Plain && !reading(seq![]).escaped && reading(seq![]).open == 0,
{
    assert(s.push(c).drop_last() =~= s);
}

/// Rules are compiled exactly from selectors that are some, nest at most 256 deep and
/// parse. The stylesheet hides what they select, and the source names that stylesheet.
pub proof fn compiled_rules_name_their_own_stylesheet(selectors: Vec<String>, r: Option<HidingRules>)
    requires
        fields::ascii(stylesheet(listed(ordered(texts(selectors@))))).len() <= DIGEST_LIMIT,
        call_ensures(HidingRules::compile, (selectors,), r),
    ensures
        selectors@.len() == 0 ==> r is None,
        nesting(listed(ordered(texts(selectors@)))) > 256 ==> r is None,
        r matches Some(rules) ==> rules.style_text() == rules.selector_text() + "{display:none!important}"@
            && rules.source_text() == "'sha256-"@ + base64_text(sha256(fields::ascii(rules.style_text()))) + "'"@
            && rules.selector_text() == listed(ordered(texts(selectors@))),
{
}

} // verus!
