//! Rewriting documents: which bodies may be rewritten, what is hidden in them,
//! and how a rewrite that fails ends.

use vstd::prelude::*;
use vstd::slice::slice_subrange;

use crate::csp::{drop_fields, read_value, relax_policy};
#[allow(unused_imports)]
use crate::csp;
#[allow(unused_imports)]
use crate::fields;
use crate::fields::{find_value, Field};
use crate::hosts::slice_to_vec;
#[allow(unused_imports)]
use crate::name;
use crate::name::to_lowered;
#[allow(unused_imports)]
use crate::text;
use crate::text::{
    chars_of, has_char, push_decimal, push_text, same_bytes, same_chars, split_chars, string_of, trim,
};

verus! {

/// Why a response body goes on untouched.
#[derive(Clone, Copy, Debug, PartialEq, Eq, Structural)]
pub enum NotRewritable {
    /// The status carries no whole body.
    NoWholeBody,
    /// Not `text/html`.
    NotHtml,
    /// An unsupported content coding, or more than one.
    ContentCoded,
    /// The declared character encoding cannot be streamed.
    UnsupportedCharset,
}

impl NotRewritable {
    pub fn message(&self) -> (r: &'static str)
        ensures
            r@ == (match self {
                NotRewritable::NoWholeBody => "the response carries no whole body"@,
                NotRewritable::NotHtml => "the response is not text/html"@,
                NotRewritable::ContentCoded => "the body carries an unreadable content coding"@,
                NotRewritable::UnsupportedCharset =>
                    "the character encoding is not ASCII-compatible"@,
            }),
    {
        match self {
            NotRewritable::NoWholeBody => "the response carries no whole body",
            NotRewritable::NotHtml => "the response is not text/html",
            NotRewritable::ContentCoded => "the body carries an unreadable content coding",
            NotRewritable::UnsupportedCharset => "the character encoding is not ASCII-compatible",
        }
    }
}

/// A content coding that can be read.
#[derive(Clone, Copy, Debug, PartialEq, Eq, Structural)]
pub enum Coding {
    Identity,
    Gzip,
    Deflate,
    Brotli,
    Zstd,
}

/// The coding that one token names.
pub open spec fn coding_named(token: Seq<char>) -> Option<Coding> {
    let t = name::lowered(text::trimmed(token));
    if t == ""@ || t == "identity"@ {
        Some(Coding::Identity)
    } else if t == "gzip"@ || t == "x-gzip"@ {
        Some(Coding::Gzip)
    } else if t == "deflate"@ {
        Some(Coding::Deflate)
    } else if t == "br"@ {
        Some(Coding::Brotli)
    } else if t == "zstd"@ {
        Some(Coding::Zstd)
    } else {
        None
    }
}

fn is_text(s: &[char], t: &str) -> (r: bool)
    ensures
        r == (s@ == t@),
{
    let t: Vec<char> = chars_of(t);
    same_chars(s, t.as_slice())
}

impl Coding {
    /// The coding that one token of `Content-Encoding` names.
    pub fn from_token(token: &[char]) -> (r: Option<Self>)
        ensures
            r == coding_named(token@),
    {
        let lower: Vec<char> = to_lowered(trim(token));
        let t: &[char] = lower.as_slice();
        if is_text(t, "") || is_text(t, "identity") {
            Some(Coding::Identity)
        } else if is_text(t, "gzip") || is_text(t, "x-gzip") {
            Some(Coding::Gzip)
        } else if is_text(t, "deflate") {
            Some(Coding::Deflate)
        } else if is_text(t, "br") {
            Some(Coding::Brotli)
        } else if is_text(t, "zstd") {
            Some(Coding::Zstd)
        } else {
            None
        }
    }
}

/// The one coding that the tokens add to `coding`; `None` where a token names
/// none that can be read, or a second one beside another.
pub open spec fn coding_of(coding: Coding, tokens: Seq<Seq<char>>) -> Option<Coding>
    decreases tokens.len(),
{
    if tokens.len() == 0 {
        Some(coding)
    } else {
        match coding_named(tokens[0]) {
            None => None,
            Some(Coding::Identity) => coding_of(coding, tokens.skip(1)),
            Some(named) => if coding == Coding::Identity {
                coding_of(named, tokens.skip(1))
            } else {
                None
            },
        }
    }
}

/// The tokens of every `content-encoding` field that reads as text.
pub open spec fn coding_tokens(block: Seq<Field>) -> Seq<Seq<char>>
    decreases block.len(),
{
    if block.len() == 0 {
        seq![]
    } else {
        let before = coding_tokens(block.drop_last());
        if block.last().0@ == fields::ascii("content-encoding"@) {
            match csp::value_text(block.last().1@) {
                Some(t) => before + text::split_at_each(t, ','),
                None => before,
            }
        } else {
            before
        }
    }
}

fn read_tokens(block: &Vec<Field>) -> (r: Vec<Vec<char>>)
    ensures
        text::views(r@) == coding_tokens(block@),
{
    let wanted: &[u8] = "content-encoding".as_bytes();
    let mut r: Vec<Vec<char>> = Vec::new();
    let n: usize = block.len();
    let mut i: usize = 0;
    assert(block@.take(0) =~= seq![]);
    assert(text::views(r@) =~= seq![]);
    while i < n
        invariant
            i <= n,
            n == block@.len(),
            wanted@ == fields::ascii("content-encoding"@),
            text::views(r@) == coding_tokens(block@.take(i as int)),
        decreases n - i,
    {
        assert(block@.take(i + 1).drop_last() =~= block@.take(i as int));
        if same_bytes(block[i].0.as_slice(), wanted) {
            match read_value(block[i].1.as_slice()) {
                Some(chars) => {
                    let mut parts: Vec<Vec<char>> = split_chars(chars.as_slice(), ',');
                    let ghost before = r@;
                    let ghost more = parts@;
                    r.append(&mut parts);
                    assert(r@ =~= before + more);
                    assert(text::views(r@) =~= text::views(before) + text::views(more));
                },
                None => {},
            }
        }
        i += 1;
    }
    assert(block@.take(n as int) =~= block@);
    r
}

fn read_coding(block: &Vec<Field>) -> (r: Option<Coding>)
    ensures
        r == coding_of(Coding::Identity, coding_tokens(block@)),
{
    let tokens: Vec<Vec<char>> = read_tokens(block);
    let ghost all = text::views(tokens@);
    let n: usize = tokens.len();
    let mut coding: Coding = Coding::Identity;
    let mut i: usize = 0;
    assert(all.skip(0) =~= all);
    while i < n
        invariant
            i <= n,
            n == tokens@.len(),
            all == text::views(tokens@),
            all == coding_tokens(block@),
            coding_of(coding, all.skip(i as int)) == coding_of(Coding::Identity, all),
        decreases n - i,
    {
        proof {
            assert(all.skip(i as int)[0] == tokens@[i as int]@);
            assert(all.skip(i as int).skip(1) =~= all.skip(i + 1));
        }
        match Coding::from_token(tokens[i].as_slice()) {
            None => {
                return None;
            },
            Some(Coding::Identity) => {},
            Some(named) => {
                if coding != Coding::Identity {
                    return None;
                }
                coding = named;
            },
        }
        i += 1;
    }
    Some(coding)
}

/// `s` without quotes at either end.
pub open spec fn unquoted(s: Seq<char>) -> Seq<char>
    decreases s.len(),
{
    if s.len() > 0 && s[0] == '"' {
        unquoted(s.skip(1))
    } else if s.len() > 0 && s.last() == '"' {
        unquoted(s.drop_last())
    } else {
        s
    }
}

pub fn unquote(s: &[char]) -> (r: &[char])
    ensures
        r@ == unquoted(s@),
{
    let mut a: usize = 0;
    let mut b: usize = s.len();
    assert(s@.subrange(0, b as int) =~= s@);
    while a < b && (s[a] == '"' || s[b - 1] == '"')
        invariant
            a <= b <= s@.len(),
            unquoted(s@.subrange(a as int, b as int)) == unquoted(s@),
        decreases b - a,
    {
        let ghost t = s@.subrange(a as int, b as int);
        if s[a] == '"' {
            assert(t.skip(1) =~= s@.subrange(a + 1, b as int));
            a += 1;
        } else {
            assert(t.drop_last() =~= s@.subrange(a as int, b - 1));
            b -= 1;
        }
    }
    slice_subrange(s, a, b)
}

/// What a parameter's value says: itself, or what stands between its quotes. One
/// whose quotes do not pair up says nothing.
pub open spec fn value_said(v: Seq<char>) -> Option<Seq<char>> {
    if !v.contains('"') {
        Some(v)
    } else if v.len() >= 2 && v[0] == '"' && v.last() == '"' && !v.subrange(1, v.len() - 1).contains('"') {
        Some(v.subrange(1, v.len() - 1))
    } else {
        None
    }
}

/// The value of a parameter that is named `charset`; a malformed one has none.
pub open spec fn charset_in(parameter: Seq<char>) -> Option<Seq<char>> {
    let n = text::until(parameter, '=') as int;
    if n < parameter.len() && csp::alike(text::trimmed(parameter.take(n)), "charset"@) {
        value_said(text::trimmed(parameter.skip(n + 1)))
    } else {
        None
    }
}

fn say_value(v: &[char]) -> (r: Option<Vec<char>>)
    ensures
        match r {
            Some(said) => value_said(v@) == Some(said@),
            None => value_said(v@) is None,
        },
{
    if !has_char(v, '"') {
        return Some(slice_to_vec(v));
    }
    let n: usize = v.len();
    if n >= 2 && v[0] == '"' && v[n - 1] == '"' {
        let inner: &[char] = slice_subrange(v, 1, n - 1);
        if !has_char(inner, '"') {
            return Some(slice_to_vec(inner));
        }
    }
    None
}

/// The first charset of the parameters.
pub open spec fn first_charset(parameters: Seq<Seq<char>>) -> Option<Seq<char>>
    decreases parameters.len(),
{
    if parameters.len() == 0 {
        None
    } else {
        match charset_in(parameters[0]) {
            Some(c) => Some(c),
            None => first_charset(parameters.skip(1)),
        }
    }
}

/// A media type and its charset, if it declares one.
pub open spec fn media_of(value: Seq<char>) -> (Seq<char>, Option<Seq<char>>) {
    let p = text::split_at_each(value, ';');
    (text::trimmed(p[0]), first_charset(p.skip(1)))
}

fn read_charset(parameter: &[char]) -> (r: Option<Vec<char>>)
    ensures
        match r {
            Some(c) => charset_in(parameter@) == Some(c@),
            None => charset_in(parameter@) is None,
        },
{
    let n: usize = parameter.len();
    let mut i: usize = 0;
    while i < n && parameter[i] != '='
        invariant
            i <= n,
            n == parameter@.len(),
            forall|j: int| 0 <= j < i ==> parameter@[j] != '=',
        decreases n - i,
    {
        i += 1;
    }
    proof {
        text::lemma_until_is(parameter@, '=', i as int);
    }
    if i == n {
        return None;
    }
    let label: &[char] = slice_subrange(parameter, 0, i);
    let value: &[char] = slice_subrange(parameter, i + 1, n);
    proof {
        assert(label@ =~= parameter@.take(i as int));
        assert(value@ =~= parameter@.skip(i + 1));
    }
    let label: Vec<char> = to_lowered(trim(label));
    proof {
        reveal_strlit("charset");
        assert(name::lowered("charset"@) =~= "charset"@);
    }
    if !is_text(label.as_slice(), "charset") {
        return None;
    }
    say_value(trim(value))
}

/// Splits a media type from its charset; malformed parameters yield none.
pub fn media_type(value: &[char]) -> (r: (Vec<char>, Option<Vec<char>>))
    ensures
        r.0@ == media_of(value@).0,
        match r.1 {
            Some(c) => media_of(value@).1 == Some(c@),
            None => media_of(value@).1 is None,
        },
{
    let parts: Vec<Vec<char>> = split_chars(value, ';');
    let ghost all = text::views(parts@);
    let n: usize = parts.len();
    assert(all[0] == parts@[0]@);
    let media: Vec<char> = slice_to_vec(trim(parts[0].as_slice()));
    let mut i: usize = 1;
    while i < n
        invariant
            1 <= i <= n,
            n == parts@.len(),
            all == text::views(parts@),
            all == text::split_at_each(value@, ';'),
            media@ == media_of(value@).0,
            first_charset(all.skip(i as int)) == first_charset(all.skip(1)),
        decreases n - i,
    {
        proof {
            assert(all.skip(i as int)[0] == parts@[i as int]@);
            assert(all.skip(i as int).skip(1) =~= all.skip(i + 1));
        }
        match read_charset(parts[i].as_slice()) {
            Some(c) => {
                return (media, Some(c));
            },
            None => {},
        }
        i += 1;
    }
    (media, None)
}

/// The canonical name of the encoding that a label stands for, as
/// `encoding_rs::Encoding::for_label_no_replacement` finds it.
pub uninterp spec fn encoding_labelled(label: Seq<u8>) -> Option<Seq<char>>;

/// `encoding_rs::Encoding::for_label_no_replacement`: the encoding that a label
/// stands for, by its canonical name. Which labels stand for which encoding is
/// the Encoding Standard's table, named and not written out here.
#[verifier::external_body]
fn encoding_for(label: &[u8]) -> (r: Option<String>)
    ensures
        r is Some == encoding_labelled(label@) is Some,
        r is Some ==> r->0@ == encoding_labelled(label@)->0,
{
    encoding_rs::Encoding::for_label_no_replacement(label).map(|found| found.name().to_string())
}

/// Whether the encoding of a canonical name is ASCII-compatible, as
/// `lol_html::AsciiCompatibleEncoding::new` finds it.
pub uninterp spec fn ascii_compatible(name: Seq<char>) -> bool;

/// `lol_html::AsciiCompatibleEncoding::new`: whether the rewriter can stream
/// the encoding of this canonical name. A name that no encoding has is not
/// streamed.
#[verifier::external_body]
fn streams(name: &str) -> (r: bool)
    ensures
        r == ascii_compatible(name@),
{
    encoding_rs::Encoding::for_label(name.as_bytes())
        .and_then(lol_html::AsciiCompatibleEncoding::new)
        .is_some()
}

/// Permission to rewrite a body: its encoding and its coding.
#[derive(Clone, Debug, PartialEq, Eq)]
pub struct Rewritable {
    /// The encoding, by its canonical name; `None` for UTF-8 until the document
    /// says otherwise.
    pub encoding: Option<String>,
    pub coding: Coding,
}

impl Rewritable {
    pub fn coding(self) -> (r: Coding)
        ensures
            r == self.coding,
    {
        self.coding
    }
}

/// Whether a response with this status carries no whole body.
pub open spec fn partial(status: u16) -> bool {
    100 <= status < 200 || status == 204 || status == 304 || status == 206
}

/// What the headers of a response say of rewriting its body, given what the
/// labels stand for.
pub open spec fn rewriting_of(status: u16, block: Seq<Field>) -> Result<
    (Option<Seq<char>>, Coding),
    NotRewritable,
> {
    if partial(status) {
        Err(NotRewritable::NoWholeBody)
    } else {
        match coding_of(Coding::Identity, coding_tokens(block)) {
            None => Err(NotRewritable::ContentCoded),
            Some(coding) => match content_type(block) {
                None => Err(NotRewritable::NotHtml),
                Some(value) => {
                    let (media, charset) = media_of(value);
                    if !csp::alike(media, "text/html"@) {
                        Err(NotRewritable::NotHtml)
                    } else {
                        match charset {
                            None => Ok((None, coding)),
                            Some(label) => match encoding_labelled(fields::ascii(label)) {
                                Some(found) if ascii_compatible(found) => Ok((Some(found), coding)),
                                _ => Err(NotRewritable::UnsupportedCharset),
                            },
                        }
                    }
                },
            },
        }
    }
}

/// The first `content-type` of a block, if it reads as text.
pub open spec fn content_type(block: Seq<Field>) -> Option<Seq<char>> {
    match fields::first_value(block, fields::ascii("content-type"@)) {
        Some(value) => csp::value_text(value),
        None => None,
    }
}

fn read_content_type(block: &Vec<Field>) -> (r: Option<Vec<char>>)
    ensures
        match r {
            Some(t) => content_type(block@) == Some(t@),
            None => content_type(block@) is None,
        },
{
    match find_value(block, "content-type".as_bytes()) {
        Some(value) => read_value(value.as_slice()),
        None => None,
    }
}

/// The encoding that a charset parameter asks for, or why it cannot be had.
fn charset_encoding(charset: Option<Vec<char>>) -> (r: Result<Option<String>, NotRewritable>)
    ensures
        match charset {
            None => r is Ok && r->Ok_0 is None,
            Some(label) => match encoding_labelled(fields::ascii(label@)) {
                Some(found) if ascii_compatible(found) => r is Ok && r->Ok_0 is Some && r->Ok_0->0@
                    == found,
                _ => r is Err && r->Err_0 == NotRewritable::UnsupportedCharset,
            },
        },
{
    match charset {
        None => Ok(None),
        Some(label) => {
            let label: String = string_of(label.as_slice());
            match encoding_for(label.as_str().as_bytes()) {
                Some(found) => {
                    if streams(found.as_str()) {
                        Ok(Some(found))
                    } else {
                        Err(NotRewritable::UnsupportedCharset)
                    }
                },
                None => Err(NotRewritable::UnsupportedCharset),
            }
        },
    }
}

/// Reads the headers of a response as permission to rewrite its body.
pub fn rewritable(status: u16, block: &Vec<Field>) -> (r: Result<Rewritable, NotRewritable>)
    ensures
        match rewriting_of(status, block@) {
            Ok((encoding, coding)) => r matches Ok(found) && found.coding == coding && (
            match encoding {
                Some(name) => found.encoding is Some && found.encoding->0@ == name,
                None => found.encoding is None,
            }),
            Err(why) => r matches Err(e) && e == why,
        },
{
    if (100 <= status && status < 200) || status == 204 || status == 304 || status == 206 {
        return Err(NotRewritable::NoWholeBody);
    }
    let coding: Coding = match read_coding(block) {
        Some(coding) => coding,
        None => {
            return Err(NotRewritable::ContentCoded);
        },
    };
    let value: Vec<char> = match read_content_type(block) {
        Some(value) => value,
        None => {
            return Err(NotRewritable::NotHtml);
        },
    };
    let (media, charset) = media_type(value.as_slice());
    let media: Vec<char> = to_lowered(media.as_slice());
    proof {
        reveal_strlit("text/html");
        assert(name::lowered("text/html"@) =~= "text/html"@);
    }
    if !is_text(media.as_slice(), "text/html") {
        return Err(NotRewritable::NotHtml);
    }
    match charset_encoding(charset) {
        Ok(encoding) => Ok(Rewritable { encoding, coding }),
        Err(e) => Err(e),
    }
}

/// The memory limits of one rewrite.
#[derive(Clone, Copy, Debug, PartialEq, Eq, Structural)]
pub struct StreamBudget {
    max_memory_bytes: usize,
    parsing_buffer_bytes: usize,
}

/// Why a budget can rewrite nothing.
#[derive(Clone, Copy, Debug, PartialEq, Eq, Structural)]
pub enum BudgetError {
    /// The ceiling is zero.
    NoCeiling,
    /// The parsing buffer exceeds the ceiling.
    BufferExceedsCeiling { parsing: usize, ceiling: usize },
}

impl BudgetError {
    pub fn text(&self) -> (r: String)
        ensures
            r@ == (match self {
                BudgetError::NoCeiling => "a rewriting ceiling of zero rewrites nothing"@,
                BudgetError::BufferExceedsCeiling { parsing, ceiling } => "a "@ + text::decimal(
                    *parsing as nat,
                ) + "-byte parsing buffer cannot fit under a "@ + text::decimal(*ceiling as nat)
                    + "-byte ceiling"@,
            }),
    {
        let mut r = String::new();
        match self {
            BudgetError::NoCeiling => {
                push_text(&mut r, "a rewriting ceiling of zero rewrites nothing");
                assert(r@ =~= "a rewriting ceiling of zero rewrites nothing"@);
            },
            BudgetError::BufferExceedsCeiling { parsing, ceiling } => {
                push_text(&mut r, "a ");
                push_decimal(&mut r, *parsing as u64);
                push_text(&mut r, "-byte parsing buffer cannot fit under a ");
                push_decimal(&mut r, *ceiling as u64);
                push_text(&mut r, "-byte ceiling");
                assert(r@ =~= "a "@ + text::decimal(*parsing as nat)
                    + "-byte parsing buffer cannot fit under a "@ + text::decimal(*ceiling as nat)
                    + "-byte ceiling"@);
            },
        }
        r
    }
}

impl StreamBudget {
    pub closed spec fn ceiling(self) -> usize {
        self.max_memory_bytes
    }

    pub closed spec fn parsing(self) -> usize {
        self.parsing_buffer_bytes
    }

    /// A budget whose buffer fits its ceiling.
    pub fn new(max_memory_bytes: usize, parsing_buffer_bytes: usize) -> (r: Result<
        Self,
        BudgetError,
    >)
        ensures
            r is Ok == (0 < max_memory_bytes && parsing_buffer_bytes <= max_memory_bytes),
            r matches Ok(b) ==> b.ceiling() == max_memory_bytes && b.parsing()
                == parsing_buffer_bytes,
            r matches Err(e) ==> e == (if max_memory_bytes == 0 {
                BudgetError::NoCeiling
            } else {
                BudgetError::BufferExceedsCeiling {
                    parsing: parsing_buffer_bytes,
                    ceiling: max_memory_bytes,
                }
            }),
    {
        if max_memory_bytes == 0 {
            return Err(BudgetError::NoCeiling);
        }
        if parsing_buffer_bytes > max_memory_bytes {
            return Err(
                BudgetError::BufferExceedsCeiling {
                    parsing: parsing_buffer_bytes,
                    ceiling: max_memory_bytes,
                },
            );
        }
        Ok(StreamBudget { max_memory_bytes, parsing_buffer_bytes })
    }

    pub fn max_memory_bytes(self) -> (r: usize)
        ensures
            r == self.ceiling(),
    {
        self.max_memory_bytes
    }

    pub fn parsing_buffer_bytes(self) -> (r: usize)
        ensures
            r == self.parsing(),
    {
        self.parsing_buffer_bytes
    }
}

impl Default for StreamBudget {
    fn default() -> (r: Self)
        ensures
            r.ceiling() == 2097152,
            r.parsing() == 16384,
    {
        StreamBudget { max_memory_bytes: 2097152, parsing_buffer_bytes: 16384 }
    }
}

/// Rewrites that were given up on one connection.
#[derive(Debug)]
pub struct RewriteFailures {
    pub count: u64,
}

impl RewriteFailures {
    pub fn new() -> (r: Self)
        ensures
            r.count == 0,
    {
        RewriteFailures { count: 0 }
    }

    pub fn record(&mut self)
        ensures
            final(self).count == (old(self).count + 1) % 0x1_0000_0000_0000_0000,
    {
        self.count = self.count.wrapping_add(1);
    }

    pub fn count(&self) -> (n: u64)
        ensures
            n == self.count,
    {
        self.count
    }
}

/// The header edits and permissions of one rewrite.
#[derive(Debug)]
pub struct Edit {
    pub rewritable: Rewritable,
    /// Whether the stylesheet is injected.
    pub inject: bool,
}

/// Prepares a response for rewriting with the stylesheet that `source` names:
/// the policies let it through, and headers that describe a coded body go.
/// A body that may not be rewritten keeps its headers.
pub fn prepare(status: u16, block: &mut Vec<Field>, source: &str) -> (r: Option<Edit>)
    ensures
        r is Some == rewriting_of(status, old(block)@) is Ok,
        r is None ==> *final(block) == *old(block),
        r matches Some(edit) ==> edit.rewritable.coding == rewriting_of(status, old(block)@)->Ok_0.1
            && edit.inject == relaxed(old(block)@, source@).1 && (match rewriting_of(
            status,
            old(block)@,
        )->Ok_0.0 {
            Some(name) => edit.rewritable.encoding is Some && edit.rewritable.encoding->0@ == name,
            None => edit.rewritable.encoding is None,
        }) && fields::block(final(block)@) == (if edit.rewritable.coding == Coding::Identity {
            relaxed(old(block)@, source@).0
        } else {
            plain_block(relaxed(old(block)@, source@).0)
        }),
{
    let found: Rewritable = match rewritable(status, block) {
        Ok(found) => found,
        Err(_) => {
            return None;
        },
    };
    let inject: bool = relax_policy(block, source);
    let ghost after = block@;
    assert(fields::block(after) == relaxed(old(block)@, source@).0);
    if found.coding != Coding::Identity {
        let once: Vec<Field> = drop_fields(block, "content-encoding".as_bytes());
        let twice: Vec<Field> = drop_fields(&once, "content-length".as_bytes());
        proof {
            lemma_without(after, fields::ascii("content-encoding"@));
            lemma_without(once@, fields::ascii("content-length"@));
        }
        *block = twice;
    }
    Some(Edit { rewritable: found, inject })
}

/// A header block after its policies were relaxed, and whether a stylesheet
/// may be injected.
pub open spec fn relaxed(block: Seq<Field>, source: Seq<char>) -> (Seq<(Seq<u8>, Seq<u8>)>, bool) {
    let list = csp::policies(block);
    if list.len() == 0 {
        (fields::block(block), true)
    } else if !csp::rebuildable(list, source) {
        (fields::block(block), false)
    } else {
        (
            csp::without(block, csp::csp_name()) + csp::policy_fields(list, source),
            csp::none_refuses(list, source),
        )
    }
}

/// The pairs without those of one name.
pub open spec fn pairs_without(pairs: Seq<(Seq<u8>, Seq<u8>)>, name: Seq<u8>) -> Seq<
    (Seq<u8>, Seq<u8>),
>
    decreases pairs.len(),
{
    if pairs.len() == 0 {
        seq![]
    } else if pairs.last().0 == name {
        pairs_without(pairs.drop_last(), name)
    } else {
        pairs_without(pairs.drop_last(), name).push(pairs.last())
    }
}

/// The pairs without what describes a coded body.
pub open spec fn plain_block(pairs: Seq<(Seq<u8>, Seq<u8>)>) -> Seq<(Seq<u8>, Seq<u8>)> {
    pairs_without(
        pairs_without(pairs, fields::ascii("content-encoding"@)),
        fields::ascii("content-length"@),
    )
}

proof fn lemma_without(block: Seq<Field>, name: Seq<u8>)
    ensures
        csp::without(block, name) == pairs_without(fields::block(block), name),
    decreases block.len(),
{
    if block.len() > 0 {
        lemma_without(block.drop_last(), name);
        assert(fields::block(block).drop_last() =~= fields::block(block.drop_last()));
    }
}

/// Whether a matched element is removed: its author may have committed to its
/// exact content.
pub fn hides(has_integrity: bool) -> (r: bool)
    ensures
        r == !has_integrity,
{
    !has_integrity
}

/// Why a rewriter stopped.
#[derive(Clone, Copy, Debug, PartialEq, Eq, Structural)]
pub enum RewriteError {
    MemoryLimit,
    ContentHandler,
    /// Going on could edit the wrong element.
    Ambiguity,
}

/// Whether the rewriter handed on all that it held before it stopped.
pub open spec fn is_graceful(e: RewriteError) -> bool {
    e == RewriteError::MemoryLimit || e == RewriteError::ContentHandler
}

pub fn recoverable(e: RewriteError) -> (r: bool)
    ensures
        r == is_graceful(e),
{
    match e {
        RewriteError::MemoryLimit => true,
        RewriteError::ContentHandler => true,
        RewriteError::Ambiguity => false,
    }
}

/// The body ended before the document did.
#[derive(Clone, Copy, Debug, PartialEq, Eq, Structural)]
pub struct Truncated;

impl Truncated {
    pub fn message(&self) -> (r: &'static str)
        ensures
            r@ == "the rewriter abandoned the document mid-element"@,
    {
        "the rewriter abandoned the document mid-element"
    }
}

/// How a body is handled.
#[derive(Clone, Copy, Debug, PartialEq, Eq, Structural)]
pub enum Stage {
    Rewriting,
    /// Going on unrewritten, after a rewriter that stopped gracefully.
    Raw,
    Ended,
}

/// What is done with decoded bytes.
#[derive(Debug, PartialEq, Eq)]
pub enum Step {
    /// Nothing.
    Idle,
    /// They go to the rewriter, whose outcome is reported next.
    Rewrite(Vec<u8>),
    /// They go on as they are.
    Forward(Vec<u8>),
}

/// The stage after the rewriter's outcome.
pub open spec fn after_write(stage: Stage, outcome: Result<(), RewriteError>) -> Stage {
    match outcome {
        Ok(_) => stage,
        Err(e) => if is_graceful(e) {
            Stage::Raw
        } else {
            Stage::Ended
        },
    }
}

/// How far a stage is from rewriting.
pub open spec fn distance(stage: Stage) -> int {
    match stage {
        Stage::Rewriting => 0,
        Stage::Raw => 1,
        Stage::Ended => 2,
    }
}

/// One more failure.
pub open spec fn noted(before: u64) -> int {
    (before + 1) % 0x1_0000_0000_0000_0000
}

impl Stage {
    /// Takes decoded bytes, or the news that they could not be decoded, which
    /// ends the body visibly.
    pub fn take(&mut self, decoded: Option<Vec<u8>>, failures: &mut RewriteFailures) -> (r: Result<
        Step,
        Truncated,
    >)
        ensures
            match decoded {
                None => if *old(self) == Stage::Ended {
                    r is Ok && r->Ok_0 is Idle && *final(self) == Stage::Ended && final(failures).count == old(failures).count
                } else {
                    r is Err && *final(self) == Stage::Ended && final(failures).count == noted(
                        old(failures).count,
                    )
                },
                Some(bytes) => *final(self) == *old(self) && final(failures).count == old(failures).count && match *old(self) {
                    Stage::Rewriting => r matches Ok(Step::Rewrite(b)) && b@ == bytes@,
                    Stage::Raw => r matches Ok(Step::Forward(b)) && b@ == bytes@,
                    Stage::Ended => r matches Ok(Step::Idle),
                },
            },
    {
        match *self {
            Stage::Ended => {
                return Ok(Step::Idle);
            },
            _ => {},
        }
        match decoded {
            None => {
                failures.record();
                *self = Stage::Ended;
                Err(Truncated)
            },
            Some(bytes) => match *self {
                Stage::Rewriting => Ok(Step::Rewrite(bytes)),
                Stage::Raw => Ok(Step::Forward(bytes)),
                Stage::Ended => Ok(Step::Idle),
            },
        }
    }

    /// Takes the rewriter's outcome. One that stopped is never used again.
    pub fn wrote(
        &mut self,
        outcome: Result<(), RewriteError>,
        failures: &mut RewriteFailures,
    ) -> (r: Result<(), Truncated>)
        ensures
            *final(self) == after_write(*old(self), outcome),
            r is Err == (outcome matches Err(e) && !is_graceful(e)),
            final(failures).count == (if outcome is Err {
                noted(old(failures).count)
            } else {
                old(failures).count as int
            }),
    {
        match outcome {
            Ok(()) => Ok(()),
            Err(e) => {
                failures.record();
                if recoverable(e) {
                    *self = Stage::Raw;
                    Ok(())
                } else {
                    *self = Stage::Ended;
                    Err(Truncated)
                }
            },
        }
    }

    /// Takes the tail that closing the decoder gave.
    pub fn take_tail(&mut self, tail: Option<Vec<u8>>, failures: &mut RewriteFailures) -> (r:
        Result<Step, Truncated>)
        ensures
            match tail {
                None => r is Err && *final(self) == Stage::Ended && final(failures).count == noted(
                    old(failures).count,
                ),
                Some(bytes) => *final(self) == *old(self) && final(failures).count == old(failures).count && if bytes@.len() == 0 {
                    r matches Ok(Step::Idle)
                } else {
                    match *old(self) {
                        Stage::Rewriting => r matches Ok(Step::Rewrite(b)) && b@ == bytes@,
                        Stage::Raw => r matches Ok(Step::Forward(b)) && b@ == bytes@,
                        Stage::Ended => r matches Ok(Step::Idle),
                    }
                },
            },
    {
        match tail {
            None => {
                failures.record();
                *self = Stage::Ended;
                Err(Truncated)
            },
            Some(bytes) => {
                if bytes.len() == 0 {
                    return Ok(Step::Idle);
                }
                match *self {
                    Stage::Rewriting => Ok(Step::Rewrite(bytes)),
                    Stage::Raw => Ok(Step::Forward(bytes)),
                    Stage::Ended => Ok(Step::Idle),
                }
            },
        }
    }

    /// Ends the body, and says whether the rewriter has to be ended with it.
    pub fn end(&mut self) -> (r: bool)
        ensures
            r == (*old(self) == Stage::Rewriting),
            *final(self) == Stage::Ended,
    {
        let live: bool = match *self {
            Stage::Rewriting => true,
            _ => false,
        };
        *self = Stage::Ended;
        live
    }

    /// Takes the outcome of ending the rewriter.
    pub fn closed(&self, outcome: Result<(), RewriteError>, failures: &mut RewriteFailures) -> (r:
        Result<(), Truncated>)
        ensures
            r is Err == (outcome matches Err(e) && !is_graceful(e)),
            final(failures).count == (if outcome is Err {
                noted(old(failures).count)
            } else {
                old(failures).count as int
            }),
    {
        match outcome {
            Ok(()) => Ok(()),
            Err(e) => {
                failures.record();
                if recoverable(e) {
                    Ok(())
                } else {
                    Err(Truncated)
                }
            },
        }
    }
}

/// A rewriter that stopped is never written to again: no outcome brings a body
/// nearer to rewriting, and a failure takes it away from it.
pub proof fn a_stopped_rewriter_is_never_used_again(
    stage: Stage,
    outcome: Result<(), RewriteError>,
)
    requires
        stage == Stage::Rewriting,
    ensures
        distance(after_write(stage, outcome)) >= distance(stage),
        outcome is Err ==> after_write(stage, outcome) != Stage::Rewriting,
{
}

/// What a body does next: it hands on what the rewriter gave, then ends, and
/// only then reads on.
#[derive(Clone, Copy, Debug, PartialEq, Eq, Structural)]
pub enum Turn {
    Emit,
    Finish,
    Read,
}

pub fn next_turn(held: bool, stage: Stage) -> (r: Turn)
    ensures
        r == (if held {
            Turn::Emit
        } else if stage == Stage::Ended {
            Turn::Finish
        } else {
            Turn::Read
        }),
{
    if held {
        return Turn::Emit;
    }
    match stage {
        Stage::Ended => Turn::Finish,
        _ => Turn::Read,
    }
}

/// Whether a token is a word, white space round it and case aside.
pub open spec fn says(token: Seq<char>, word: Seq<char>) -> bool {
    csp::same_but_case(text::trimmed(token), word)
}

/// What the codings are called: no name at all and `identity` for none, `gzip` and
/// `x-gzip`, `deflate`, `br` and `zstd`, in whatever case. Nothing else can be read.
pub proof fn a_coding_is_known_by_its_name(token: Seq<char>)
    ensures
        says(token, ""@) || says(token, "identity"@) <==> coding_named(token) == Some(Coding::Identity),
        says(token, "gzip"@) || says(token, "x-gzip"@) <==> coding_named(token) == Some(Coding::Gzip),
        says(token, "deflate"@) <==> coding_named(token) == Some(Coding::Deflate),
        says(token, "br"@) <==> coding_named(token) == Some(Coding::Brotli),
        says(token, "zstd"@) <==> coding_named(token) == Some(Coding::Zstd),
{
    let t = text::trimmed(token);
    reveal_strlit("");
    reveal_strlit("identity");
    reveal_strlit("gzip");
    reveal_strlit("x-gzip");
    reveal_strlit("deflate");
    reveal_strlit("br");
    reveal_strlit("zstd");
    csp::lemma_alike_is_same_but_case(t, ""@);
    csp::lemma_alike_is_same_but_case(t, "identity"@);
    csp::lemma_alike_is_same_but_case(t, "gzip"@);
    csp::lemma_alike_is_same_but_case(t, "x-gzip"@);
    csp::lemma_alike_is_same_but_case(t, "deflate"@);
    csp::lemma_alike_is_same_but_case(t, "br"@);
    csp::lemma_alike_is_same_but_case(t, "zstd"@);
    assert(name::lowered(""@) =~= ""@);
    assert(name::lowered("identity"@) =~= "identity"@);
    assert(name::lowered("gzip"@) =~= "gzip"@);
    assert(name::lowered("x-gzip"@) =~= "x-gzip"@);
    assert(name::lowered("deflate"@) =~= "deflate"@);
    assert(name::lowered("br"@) =~= "br"@);
    assert(name::lowered("zstd"@) =~= "zstd"@);
    assert("gzip"@.len() == 4 && "x-gzip"@.len() == 6 && "deflate"@.len() == 7 && "br"@.len() == 2);
    assert("zstd"@.len() == 4 && "identity"@.len() == 8 && ""@.len() == 0);
    assert("gzip"@[0] == 'g' && "zstd"@[0] == 'z');
}

/// A body is in one coding at most: tokens that say nothing aside, one token names
/// it; two that name one each, or one that cannot be read, cannot be undone.
pub proof fn a_body_is_in_one_coding_at_most(before: Seq<Seq<char>>, token: Seq<char>, behind: Seq<Seq<char>>, c: Coding)
    requires
        forall|i: int| 0 <= i < before.len() ==> coding_named(#[trigger] before[i]) == Some(Coding::Identity),
        coding_named(token) == Some(c),
        c != Coding::Identity,
    ensures
        coding_of(Coding::Identity, before) == Some(Coding::Identity),
        coding_of(Coding::Identity, before + seq![token] + behind) is Some <==> forall|i: int|
            0 <= i < behind.len() ==> coding_named(#[trigger] behind[i]) == Some(Coding::Identity),
        coding_of(Coding::Identity, before + seq![token] + behind) matches Some(found) ==> found == c,
    decreases before.len(),
{
    let all = before + seq![token] + behind;
    if before.len() == 0 {
        assert(all[0] == token);
        assert(all.skip(1) =~= behind);
        lemma_one_coding(behind, c);
    } else {
        let rest = before.skip(1);
        assert forall|i: int| 0 <= i < rest.len() implies coding_named(#[trigger] rest[i]) == Some(
            Coding::Identity,
        ) by {
            assert(rest[i] == before[i + 1]);
        }
        assert(coding_named(before[0]) == Some(Coding::Identity));
        a_body_is_in_one_coding_at_most(rest, token, behind, c);
        assert(all[0] == before[0]);
        assert(all.skip(1) =~= rest + seq![token] + behind);
    }
}

proof fn lemma_one_coding(tokens: Seq<Seq<char>>, c: Coding)
    requires
        c != Coding::Identity,
    ensures
        coding_of(c, tokens) is Some <==> forall|i: int|
            0 <= i < tokens.len() ==> coding_named(#[trigger] tokens[i]) == Some(Coding::Identity),
        coding_of(c, tokens) matches Some(found) ==> found == c,
    decreases tokens.len(),
{
    if tokens.len() > 0 {
        let rest = tokens.skip(1);
        lemma_one_coding(rest, c);
        if coding_of(c, tokens) is Some {
            assert forall|i: int| 0 <= i < tokens.len() implies coding_named(#[trigger] tokens[i]) == Some(
                Coding::Identity,
            ) by {
                if i > 0 {
                    assert(coding_named(rest[i - 1]) == Some(Coding::Identity));
                }
            }
        }
        if forall|i: int| 0 <= i < tokens.len() ==> coding_named(#[trigger] tokens[i]) == Some(Coding::Identity) {
            assert(coding_named(tokens[0]) == Some(Coding::Identity));
            assert forall|i: int| 0 <= i < rest.len() implies coding_named(#[trigger] rest[i]) == Some(
                Coding::Identity,
            ) by {
                assert(coding_named(tokens[i + 1]) == Some(Coding::Identity));
            }
        }
    }
}

/// One token that cannot be read, anywhere, leaves a body as it is.
pub proof fn an_unreadable_coding_cannot_be_undone(coding: Coding, tokens: Seq<Seq<char>>, i: int)
    requires
        0 <= i < tokens.len(),
        coding_named(tokens[i]) is None,
    ensures
        coding_of(coding, tokens) is None,
    decreases tokens.len(),
{
    if i > 0 {
        assert(tokens.skip(1)[i - 1] == tokens[i]);
        an_unreadable_coding_cannot_be_undone(coding, tokens.skip(1), i - 1);
        match coding_named(tokens[0]) {
            Some(named) => {
                an_unreadable_coding_cannot_be_undone(named, tokens.skip(1), i - 1);
            },
            None => {},
        }
    }
}

/// A media type is what stands before the first semicolon, and its charset is the
/// first that a parameter gives. A parameter gives one by its name, in whatever case;
/// its value may stand in quotes, and white space round either counts for nothing.
pub proof fn a_media_type_is_read_as_written(media: Seq<char>, key: Seq<char>, value: Seq<char>)
    requires
        !media.contains(';'),
        !key.contains(';'),
        !key.contains('='),
        !value.contains(';'),
    ensures
        media_of(media) == (text::trimmed(media), None::<Seq<char>>),
        media_of(media + seq![';'] + key).0 == text::trimmed(media),
        media_of(media + seq![';'] + key).1 is None,
        ({
            let (found, charset) = media_of(media + seq![';'] + (key + seq!['='] + value));
            &&& found == text::trimmed(media)
            &&& !csp::same_but_case(text::trimmed(key), "charset"@) ==> charset is None
            &&& csp::same_but_case(text::trimmed(key), "charset"@) && !text::trimmed(value).contains('"') ==> charset
                == Some(text::trimmed(value))
        }),
{
    let p = key + seq!['='] + value;
    assert(!p.contains(';')) by {
        if p.contains(';') {
            let i = choose|i: int| 0 <= i < p.len() && p[i] == ';';
            if i < key.len() {
                assert(key[i] == ';');
                assert(key.contains(';'));
            } else if i > key.len() {
                assert(value[i - key.len() - 1] == ';');
                assert(value.contains(';'));
            }
        }
    }
    text::separators_part_a_text(media, media, ';');
    text::separators_part_a_text(media, key, ';');
    text::separators_part_a_text(media, p, ';');
    let one = seq![media];
    assert(one.skip(1) =~= seq![]);
    assert(first_charset(one.skip(1)) is None);
    assert(one.push(key).skip(1) =~= seq![key]);
    assert(one.push(p).skip(1) =~= seq![p]);
    assert(seq![key].skip(1) =~= seq![]);
    assert(seq![p].skip(1) =~= seq![]);
    assert(first_charset(seq![key].skip(1)) is None);
    assert(first_charset(seq![p].skip(1)) is None);
    assert forall|i: int| 0 <= i < key.len() implies key[i] != '=' by {
        assert(key.contains(key[i]));
    }
    text::lemma_until_is(key, '=', key.len() as int);
    assert(charset_in(key) is None);
    assert forall|i: int| 0 <= i < key.len() implies p[i] != '=' by {
        assert(p[i] == key[i]);
    }
    text::lemma_until_is(p, '=', key.len() as int);
    assert(p.take(key.len() as int) =~= key);
    assert(p.skip(key.len() as int + 1) =~= value);
    csp::lemma_alike_is_same_but_case(text::trimmed(key), "charset"@);
}

/// Which responses may be rewritten: those with a whole body, in a coding that can be
/// undone, that are HTML by their own word, in a charset that can be streamed. Each
/// other is refused for the first of these that it lacks.
pub proof fn only_whole_html_is_rewritten(status: u16, block: &Vec<Field>, r: Result<Rewritable, NotRewritable>)
    requires
        call_ensures(rewritable, (status, block), r),
    ensures
        (100 <= status <= 199) || status == 204 || status == 206 || status == 304 <==> r == Err::<
            Rewritable,
            NotRewritable,
        >(NotRewritable::NoWholeBody),
        r is Ok ==> content_type(block@) is Some && csp::same_but_case(
            media_of(content_type(block@)->0).0,
            "text/html"@,
        ) && coding_of(Coding::Identity, coding_tokens(block@)) == Some(r->Ok_0.coding),
        r is Ok && media_of(content_type(block@)->0).1 is None ==> r->Ok_0.encoding is None,
        r is Ok && media_of(content_type(block@)->0).1 is Some ==> r->Ok_0.encoding is Some && encoding_labelled(
            fields::ascii(media_of(content_type(block@)->0).1->0),
        ) == Some(r->Ok_0.encoding->0@) && ascii_compatible(r->Ok_0.encoding->0@),
        !((100 <= status <= 199) || status == 204 || status == 206 || status == 304) && coding_of(
            Coding::Identity,
            coding_tokens(block@),
        ) is Some && content_type(block@) is Some && csp::same_but_case(
            media_of(content_type(block@)->0).0,
            "text/html"@,
        ) && media_of(content_type(block@)->0).1 is None ==> r is Ok,
{
    if content_type(block@) is Some {
        csp::lemma_alike_is_same_but_case(media_of(content_type(block@)->0).0, "text/html"@);
    }
}

/// A rewritten response keeps every field but those that the rewriting makes wrong:
/// one whose body was in a coding loses the coding and the length, one whose body was
/// plain loses neither; and one that is not rewritten keeps all.
pub proof fn a_rewritten_response_loses_what_described_its_coding(
    status: u16,
    block: &mut Vec<Field>,
    source: &str,
    r: Option<Edit>,
    f: (Seq<u8>, Seq<u8>),
)
    requires
        call_ensures(prepare, (status, block, source), r),
    ensures
        r is None ==> *final(block) == *old(block),
        r is Some && r->0.rewritable.coding != Coding::Identity ==> (fields::block(final(block)@).contains(f) <==> f.0
            != fields::ascii("content-encoding"@) && f.0 != fields::ascii("content-length"@) && relaxed(
            old(block)@,
            source@,
        ).0.contains(f)),
        r is Some && r->0.rewritable.coding == Coding::Identity ==> fields::block(final(block)@) == relaxed(
            old(block)@,
            source@,
        ).0,
        r is Some ==> r->0.inject == relaxed(old(block)@, source@).1,
{
    let pairs = relaxed(old(block)@, source@).0;
    let once = pairs_without(pairs, fields::ascii("content-encoding"@));
    lemma_pairs_without(pairs, fields::ascii("content-encoding"@), f);
    lemma_pairs_without(once, fields::ascii("content-length"@), f);
}

proof fn lemma_pairs_without(pairs: Seq<(Seq<u8>, Seq<u8>)>, name: Seq<u8>, f: (Seq<u8>, Seq<u8>))
    ensures
        pairs_without(pairs, name).contains(f) <==> pairs.contains(f) && f.0 != name,
    decreases pairs.len(),
{
    if pairs.len() > 0 {
        let rest = pairs.drop_last();
        lemma_pairs_without(rest, name, f);
        let kept = pairs_without(rest, name);
        let all = pairs_without(pairs, name);
        if kept.contains(f) {
            let i = choose|i: int| 0 <= i < kept.len() && kept[i] == f;
            assert(all[i] == f);
        }
        if pairs.last() == f && f.0 != name {
            assert(all[kept.len() as int] == f);
        }
        if rest.contains(f) {
            let i = choose|i: int| 0 <= i < rest.len() && rest[i] == f;
            assert(pairs[i] == f);
        }
        if pairs.last() == f {
            assert(pairs[pairs.len() - 1] == f);
        }
        if pairs.contains(f) {
            let i = choose|i: int| 0 <= i < pairs.len() && pairs[i] == f;
            if i < rest.len() {
                assert(rest[i] == f);
            }
        }
        if all.contains(f) {
            let i = choose|i: int| 0 <= i < all.len() && all[i] == f;
            if i < kept.len() {
                assert(kept[i] == f);
            }
        }
    }
}

/// Which header block a stylesheet leaves: its policies go on behind all other
/// fields, in order, each widened where it has to be; the stylesheet is injected
/// exactly where none of them refuses it. A block without a policy stays as it is, and
/// so does one with a policy that cannot go on, and that one is not injected into.
pub proof fn policies_go_on_behind_the_rest(block: &mut Vec<Field>, source: &str, inject: bool)
    requires
        call_ensures(relax_policy, (block, source), inject),
    ensures
        csp::policies(old(block)@).len() == 0 ==> inject && *final(block) == *old(block),
        (exists|i: int|
            0 <= i < csp::policies(old(block)@).len() && csp::permitted(
                #[trigger] csp::policies(old(block)@)[i],
                source@,
            ) is Refused) ==> !inject,
        inject && csp::policies(old(block)@).len() > 0 ==> {
            let list = csp::policies(old(block)@);
            let kept = csp::without(old(block)@, fields::ascii("content-security-policy"@));
            let after = fields::block(final(block)@);
            &&& after.len() == kept.len() + list.len()
            &&& after.take(kept.len() as int) == kept
            &&& forall|i: int|
                0 <= i < list.len() ==> (#[trigger] after[kept.len() + i]).0 == fields::ascii(
                    "content-security-policy"@,
                ) && match csp::permitted(list[i], source@) {
                    csp::Style::Granted => after[kept.len() + i].1 == fields::ascii(list[i]),
                    csp::Style::Widened(t) => after[kept.len() + i].1 == fields::ascii(t),
                    csp::Style::Refused => false,
                }
        },
        !inject ==> {
            ||| *final(block) == *old(block)
            ||| exists|i: int|
                0 <= i < csp::policies(old(block)@).len() && csp::permitted(
                    #[trigger] csp::policies(old(block)@)[i],
                    source@,
                ) is Refused
        },
{
    let list = csp::policies(old(block)@);
    if csp::rebuildable(list, source@) && list.len() > 0 {
        let kept = csp::without(old(block)@, csp::csp_name());
        let after = kept + csp::policy_fields(list, source@);
        assert(after.take(kept.len() as int) =~= kept);
        assert forall|i: int| 0 <= i < list.len() implies (#[trigger] after[kept.len() + i]).0 == csp::csp_name()
            && after[kept.len() + i].1 == fields::ascii(csp::relaxed_one(list[i], source@)) by {
            assert(after[kept.len() + i] == csp::policy_fields(list, source@)[i]);
        }
        if csp::none_refuses(list, source@) {
            assert forall|i: int| 0 <= i < list.len() implies !(csp::permitted(#[trigger] list[i], source@)
                is Refused) by {}
        }
    }
}

/// A rewriter that stops leaves the body to go on unrewritten where it handed on all
/// that it held, and ends it visibly where it did not; either way it is one failure.
/// Undecodable bytes end the body visibly. What is decoded goes to the rewriter while
/// there is one, and on as it is afterwards.
pub proof fn a_body_goes_on_or_ends_visibly(
    stage: &mut Stage,
    failures: &mut RewriteFailures,
    outcome: Result<(), RewriteError>,
    r: Result<(), Truncated>,
)
    requires
        call_ensures(Stage::wrote, (stage, outcome, failures), r),
    ensures
        outcome is Ok ==> r is Ok && *final(stage) == *old(stage) && final(failures).count == old(failures).count,
        outcome == Err::<(), RewriteError>(RewriteError::Ambiguity) ==> r is Err && *final(stage) == Stage::Ended,
        outcome == Err::<(), RewriteError>(RewriteError::MemoryLimit) || outcome == Err::<(), RewriteError>(
            RewriteError::ContentHandler,
        ) ==> r is Ok && *final(stage) == Stage::Raw,
        outcome is Err && old(failures).count < u64::MAX ==> final(failures).count == old(failures).count + 1,
{
}

/// Decoded bytes are handed on whole while the body goes on, and a body that cannot be
/// decoded ends visibly, once.
pub proof fn decoded_bytes_are_handed_on_whole(
    stage: &mut Stage,
    decoded: Option<Vec<u8>>,
    failures: &mut RewriteFailures,
    r: Result<Step, Truncated>,
)
    requires
        call_ensures(Stage::take, (stage, decoded, failures), r),
    ensures
        decoded is Some && *old(stage) == Stage::Rewriting ==> r is Ok && r->Ok_0 is Rewrite && r->Ok_0->Rewrite_0@
            == decoded->0@,
        decoded is Some && *old(stage) == Stage::Raw ==> r is Ok && r->Ok_0 is Forward && r->Ok_0->Forward_0@
            == decoded->0@,
        *old(stage) == Stage::Ended ==> r is Ok && r->Ok_0 is Idle && *final(stage) == Stage::Ended,
        decoded is None && *old(stage) != Stage::Ended ==> r is Err && *final(stage) == Stage::Ended,
        decoded is Some ==> *final(stage) == *old(stage) && final(failures).count == old(failures).count,
        r is Err && old(failures).count < u64::MAX ==> final(failures).count == old(failures).count + 1,
{
}

} // verus!
