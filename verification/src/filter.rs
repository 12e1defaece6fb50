//! Filter lists: list text in, host rules out.
//!
//! A list is written against URLs, and what can be enforced here is names.
//! Every line therefore means one of a closed set of things: a rule that is
//! enforced, nothing to enforce, or a rule that needs a faculty this tier does
//! not have, counted by the faculty. Where the reading of a rule is narrower
//! than a browser's, it blocks less, never more.

use vstd::prelude::*;
use vstd::slice::slice_subrange;

#[allow(unused_imports)]
use crate::hosts;
use crate::hosts::{HostPolicy, HostVerdict, Rules};
#[allow(unused_imports)]
use crate::literal;
use crate::literal::{is_sink, parse_address};
#[allow(unused_imports)]
use crate::name;
use crate::name::Name;
#[allow(unused_imports)]
use crate::text;
use crate::text::{chars_of, has_char, has_text, split_chars, split_words, starts_with, trim};

verus! {

/// What one line of a filter list means to the name tier.
#[derive(Clone, Debug, PartialEq, Eq)]
pub enum Rule {
    /// Block this name and everything under it.
    Block(Name),
    /// Exempt this name and everything under it. Beats every block.
    Allow(Name),
    /// Well formed, and this tier cannot enforce it.
    Deferred(Deferred),
    /// Nothing to enforce: blank, comment, or list header.
    Ignored,
}

/// Which faculty an unenforceable rule needs.
#[derive(Clone, Copy, Debug, PartialEq, Eq, Structural)]
pub enum Deferred {
    /// A scheme, a path or a query.
    NeedsUrl,
    /// The context of a request: the same host is first-party to itself.
    NeedsRequestContext,
    /// A cosmetic, scriptlet or redirect rule.
    Cosmetic,
    /// A hosts-file line that maps a name to a real address.
    HostsMapping,
    /// A wildcard or a regular expression.
    Pattern,
}

#[derive(Clone, Copy, Debug, PartialEq, Eq, Structural)]
pub enum RuleError {
    /// The line names a host that the domain name system cannot carry.
    UnrepresentableHost,
}

impl RuleError {
    pub fn message(&self) -> (r: &'static str)
        ensures
            r@ == "rule names a host DNS cannot carry"@,
    {
        match self {
            RuleError::UnrepresentableHost => "rule names a host DNS cannot carry",
        }
    }
}

/// What a line means, over the characters of a name.
pub enum Meaning {
    Block(Seq<char>),
    Allow(Seq<char>),
    Deferred(Deferred),
    Ignored,
    Malformed,
}

/// What a parsed line means.
pub open spec fn meaning(r: Result<Rule, RuleError>) -> Meaning {
    match r {
        Ok(Rule::Block(n)) => Meaning::Block(n@),
        Ok(Rule::Allow(n)) => Meaning::Allow(n@),
        Ok(Rule::Deferred(d)) => Meaning::Deferred(d),
        Ok(Rule::Ignored) => Meaning::Ignored,
        Err(_) => Meaning::Malformed,
    }
}

/// A block of `host`, if it is a name below the root.
pub open spec fn blocking(host: Seq<char>) -> Meaning {
    match name::name_of(host) {
        Some(n) if n.len() > 0 => Meaning::Block(n),
        _ => Meaning::Malformed,
    }
}

/// An exemption of `host`, if it is a name below the root.
pub open spec fn exempting(host: Seq<char>) -> Meaning {
    match name::name_of(host) {
        Some(n) if n.len() > 0 => Meaning::Allow(n),
        _ => Meaning::Malformed,
    }
}

/// A comment or a list header. A leading `#` is a comment only where what
/// follows cannot make it a cosmetic rule.
pub open spec fn is_comment(line: Seq<char>) -> bool {
    line.len() > 0 && (line[0] == '!' || line[0] == '[' || (line[0] == '#' && !(line.len() > 1 && (
    line[1] == '#' || line[1] == '@' || line[1] == '?' || line[1] == '$' || line[1] == '%'))))
}

fn comment(line: &[char]) -> (r: bool)
    ensures
        r == is_comment(line@),
{
    if line.len() == 0 {
        return false;
    }
    if line[0] == '!' || line[0] == '[' {
        return true;
    }
    if line[0] != '#' {
        return false;
    }
    if line.len() == 1 {
        return true;
    }
    let next: char = line[1];
    !(next == '#' || next == '@' || next == '?' || next == '$' || next == '%')
}

/// Whether a word starts a comment.
pub open spec fn starts_comment(word: Seq<char>) -> bool {
    word.len() > 0 && word[0] == '#'
}

fn begins_comment(word: &Vec<char>) -> (r: bool)
    ensures
        r == starts_comment(word@),
{
    word.len() > 0 && word[0] == '#'
}

/// Whether an address stands for nothing that answers.
pub open spec fn sinks(a: crate::addr::IpAddr) -> bool {
    literal::is_unspecified(a) || literal::is_loopback(a)
}

/// What a hosts-file line means: an address, then a name. `None` where the
/// line does not start with both.
pub open spec fn hosts_meaning(line: Seq<char>) -> Option<Meaning> {
    let w = text::words(line);
    if w.len() < 2 {
        None
    } else {
        match literal::address_of(w[0]) {
            None => None,
            Some(a) => if starts_comment(w[1]) {
                Some(Meaning::Ignored)
            } else if !sinks(a) {
                Some(Meaning::Deferred(Deferred::HostsMapping))
            } else {
                Some(blocking(w[1]))
            },
        }
    }
}

/// Whether the line is a cosmetic or scriptlet rule.
pub open spec fn is_cosmetic(line: Seq<char>) -> bool {
    text::holds(line, "##"@) || text::holds(line, "#@#"@) || text::holds(line, "#?#"@)
        || text::holds(line, "#$#"@)
}

/// `s` without `prefix` in front, where it starts with it.
pub open spec fn after_prefix(s: Seq<char>, prefix: Seq<char>) -> Option<Seq<char>> {
    if prefix.is_prefix_of(s) {
        Some(s.skip(prefix.len() as int))
    } else {
        None
    }
}

/// What a pattern behind the domain anchor means.
pub open spec fn anchored_meaning(pattern: Seq<char>, exception: bool) -> Meaning {
    let host = if pattern.len() > 0 && pattern.last() == '^' {
        pattern.drop_last()
    } else {
        pattern
    };
    if pattern.contains('$') {
        Meaning::Deferred(Deferred::NeedsRequestContext)
    } else if host.contains('/') || host.contains('|') {
        Meaning::Deferred(Deferred::NeedsUrl)
    } else if host.contains('*') {
        Meaning::Deferred(Deferred::Pattern)
    } else if exception {
        exempting(host)
    } else {
        blocking(host)
    }
}

/// What one line means.
pub open spec fn meant(line: Seq<char>) -> Meaning {
    let t = text::trimmed(line);
    if t.len() == 0 || is_comment(t) {
        Meaning::Ignored
    } else {
        match hosts_meaning(t) {
            Some(m) => m,
            None => if is_cosmetic(t) {
                Meaning::Deferred(Deferred::Cosmetic)
            } else {
                let (pattern, exception) = match after_prefix(t, "@@"@) {
                    Some(rest) => (rest, true),
                    None => (t, false),
                };
                match after_prefix(pattern, "||"@) {
                    None => Meaning::Deferred(Deferred::NeedsUrl),
                    Some(anchored) => anchored_meaning(anchored, exception),
                }
            },
        }
    }
}

fn host_rule(host: &[char], exception: bool) -> (r: Result<Rule, RuleError>)
    ensures
        meaning(r) == (if exception {
            exempting(host@)
        } else {
            blocking(host@)
        }),
{
    match Name::read(host) {
        Some(n) => {
            if n.is_root() {
                Err(RuleError::UnrepresentableHost)
            } else if exception {
                Ok(Rule::Allow(n))
            } else {
                Ok(Rule::Block(n))
            }
        },
        None => Err(RuleError::UnrepresentableHost),
    }
}

fn hosts_entry(line: &[char]) -> (r: Option<Result<Rule, RuleError>>)
    ensures
        match r {
            Some(rule) => hosts_meaning(line@) == Some(meaning(rule)),
            None => hosts_meaning(line@) is None,
        },
{
    let words: Vec<Vec<char>> = split_words(line);
    assert(text::views(words@).len() == words@.len());
    if words.len() < 2 {
        return None;
    }
    assert(text::words(line@)[0] == words@[0]@ && text::words(line@)[1] == words@[1]@);
    match parse_address(words[0].as_slice()) {
        None => None,
        Some(address) => {
            if begins_comment(&words[1]) {
                Some(Ok(Rule::Ignored))
            } else if !is_sink(address) {
                Some(Ok(Rule::Deferred(Deferred::HostsMapping)))
            } else {
                Some(host_rule(words[1].as_slice(), false))
            }
        },
    }
}

/// Classifies one line. The only error is a host that no name can stand for.
pub fn parse_rule(line: &str) -> (r: Result<Rule, RuleError>)
    ensures
        meaning(r) == meant(line@),
{
    let chars: Vec<char> = chars_of(line);
    classify_line(chars.as_slice())
}

fn classify_line(line: &[char]) -> (r: Result<Rule, RuleError>)
    ensures
        meaning(r) == meant(line@),
{
    let line: &[char] = trim(line);
    if line.len() == 0 || comment(line) {
        return Ok(Rule::Ignored);
    }
    match hosts_entry(line) {
        Some(rule) => {
            return rule;
        },
        None => {},
    }
    if has_text(line, "##") || has_text(line, "#@#") || has_text(line, "#?#") || has_text(
        line,
        "#$#",
    ) {
        return Ok(Rule::Deferred(Deferred::Cosmetic));
    }
    proof {
        reveal_strlit("@@");
        reveal_strlit("||");
    }
    let exception: bool = starts_with(line, "@@");
    let pattern: &[char] = if exception {
        slice_subrange(line, 2, line.len())
    } else {
        line
    };
    assert(exception ==> pattern@ =~= line@.skip(2));
    if !starts_with(pattern, "||") {
        return Ok(Rule::Deferred(Deferred::NeedsUrl));
    }
    let anchored: &[char] = slice_subrange(pattern, 2, pattern.len());
    assert(anchored@ =~= pattern@.skip(2));
    if has_char(anchored, '$') {
        return Ok(Rule::Deferred(Deferred::NeedsRequestContext));
    }
    let n: usize = anchored.len();
    let host: &[char] = if n > 0 && anchored[n - 1] == '^' {
        slice_subrange(anchored, 0, n - 1)
    } else {
        anchored
    };
    proof {
        if n > 0 && anchored@.last() == '^' {
            assert(host@ =~= anchored@.drop_last());
        }
    }
    if has_char(host, '/') || has_char(host, '|') {
        return Ok(Rule::Deferred(Deferred::NeedsUrl));
    }
    if has_char(host, '*') {
        return Ok(Rule::Deferred(Deferred::Pattern));
    }
    host_rule(host, exception)
}

/// The blocks of the names listed in `w`, up to a comment.
pub open spec fn listed(w: Seq<Seq<char>>) -> Seq<Meaning>
    decreases w.len(),
{
    if w.len() == 0 || starts_comment(w[0]) {
        seq![]
    } else {
        seq![blocking(w[0])] + listed(w.skip(1))
    }
}

/// The rules of one line: one, but for a hosts line that blocks several names,
/// which has one for each name.
pub open spec fn line_rules(line: Seq<char>) -> Seq<Meaning> {
    let w = text::words(line);
    if w.len() > 2 && !starts_comment(w[1]) && (literal::address_of(w[0]) matches Some(a) && sinks(
        a,
    )) {
        seq![meant(line)] + listed(w.skip(2))
    } else {
        seq![meant(line)]
    }
}

/// A line without the carriage return that ends it.
pub open spec fn without_return(line: Seq<char>) -> Seq<char> {
    if line.len() > 0 && line.last() == '\r' {
        line.drop_last()
    } else {
        line
    }
}

/// The lines of a text: each ends in a line feed, or in a carriage return and
/// a line feed; the last may end in neither.
pub open spec fn lines_of(s: Seq<char>) -> Seq<Seq<char>> {
    let p = text::split_at_each(s, '\n');
    let ended = Seq::new((p.len() - 1) as nat, |i: int| without_return(p[i]));
    if p.last().len() == 0 {
        ended
    } else {
        ended.push(p.last())
    }
}

/// The rules of several lines.
pub open spec fn rules_of(lines: Seq<Seq<char>>) -> Seq<Meaning>
    decreases lines.len(),
{
    if lines.len() == 0 {
        seq![]
    } else {
        rules_of(lines.drop_last()) + line_rules(lines.last())
    }
}

/// The rules of a list.
pub open spec fn list_rules(list: Seq<char>) -> Seq<Meaning> {
    rules_of(lines_of(list))
}

/// Deferrals by missing faculty.
#[derive(Clone, Copy, Debug, PartialEq, Eq, Structural)]
pub struct Deferrals {
    pub needs_url: u32,
    pub needs_request_context: u32,
    pub cosmetic: u32,
    pub hosts_mapping: u32,
    pub pattern: u32,
}

/// The sum of two counts, as far as a `u32` counts.
pub open spec fn sat(a: int, b: int) -> u32 {
    if a + b <= u32::MAX {
        (a + b) as u32
    } else {
        u32::MAX
    }
}

impl Default for Deferrals {
    fn default() -> (r: Self)
        ensures
            r == no_deferrals(),
    {
        Deferrals {
            needs_url: 0,
            needs_request_context: 0,
            cosmetic: 0,
            hosts_mapping: 0,
            pattern: 0,
        }
    }
}

pub open spec fn no_deferrals() -> Deferrals {
    Deferrals { needs_url: 0, needs_request_context: 0, cosmetic: 0, hosts_mapping: 0, pattern: 0 }
}

/// One more deferral.
pub open spec fn counted(d: Deferrals, kind: Deferred) -> Deferrals {
    match kind {
        Deferred::NeedsUrl => Deferrals { needs_url: sat(d.needs_url as int, 1), ..d },
        Deferred::NeedsRequestContext => Deferrals {
            needs_request_context: sat(d.needs_request_context as int, 1),
            ..d
        },
        Deferred::Cosmetic => Deferrals { cosmetic: sat(d.cosmetic as int, 1), ..d },
        Deferred::HostsMapping => Deferrals { hosts_mapping: sat(d.hosts_mapping as int, 1), ..d },
        Deferred::Pattern => Deferrals { pattern: sat(d.pattern as int, 1), ..d },
    }
}

/// The sums of two counts of deferrals.
pub open spec fn deferrals_sum(a: Deferrals, b: Deferrals) -> Deferrals {
    Deferrals {
        needs_url: sat(a.needs_url as int, b.needs_url as int),
        needs_request_context: sat(a.needs_request_context as int, b.needs_request_context as int),
        cosmetic: sat(a.cosmetic as int, b.cosmetic as int),
        hosts_mapping: sat(a.hosts_mapping as int, b.hosts_mapping as int),
        pattern: sat(a.pattern as int, b.pattern as int),
    }
}

/// All deferrals together.
pub open spec fn deferrals_total(d: Deferrals) -> int {
    d.needs_url + d.needs_request_context + d.cosmetic + d.hosts_mapping + d.pattern
}

impl Deferrals {
    /// All deferrals together, as far as a `u32` counts.
    pub fn total(self) -> (r: u32)
        ensures
            r == sat(deferrals_total(self), 0),
    {
        self.needs_url.saturating_add(self.needs_request_context).saturating_add(
            self.cosmetic,
        ).saturating_add(self.hosts_mapping).saturating_add(self.pattern)
    }

    fn count(&mut self, deferred: Deferred)
        ensures
            *final(self) == counted(*old(self), deferred),
    {
        match deferred {
            Deferred::NeedsUrl => {
                self.needs_url = self.needs_url.saturating_add(1);
            },
            Deferred::NeedsRequestContext => {
                self.needs_request_context = self.needs_request_context.saturating_add(1);
            },
            Deferred::Cosmetic => {
                self.cosmetic = self.cosmetic.saturating_add(1);
            },
            Deferred::HostsMapping => {
                self.hosts_mapping = self.hosts_mapping.saturating_add(1);
            },
            Deferred::Pattern => {
                self.pattern = self.pattern.saturating_add(1);
            },
        }
    }

    /// The sums of both, count by count.
    pub fn plus(self, other: Self) -> (r: Self)
        ensures
            r == deferrals_sum(self, other),
    {
        Deferrals {
            needs_url: self.needs_url.saturating_add(other.needs_url),
            needs_request_context: self.needs_request_context.saturating_add(
                other.needs_request_context,
            ),
            cosmetic: self.cosmetic.saturating_add(other.cosmetic),
            hosts_mapping: self.hosts_mapping.saturating_add(other.hosts_mapping),
            pattern: self.pattern.saturating_add(other.pattern),
        }
    }
}

/// What a list contributed, and what it did not.
#[derive(Clone, Copy, Debug, PartialEq, Eq, Structural)]
pub struct ListReport {
    /// Lines, whatever they hold.
    pub seen: u32,
    pub blocked: u32,
    pub allowed: u32,
    pub ignored: u32,
    pub malformed: u32,
    pub deferred: Deferrals,
}

/// The report on no list.
pub open spec fn empty_report() -> ListReport {
    ListReport {
        seen: 0,
        blocked: 0,
        allowed: 0,
        ignored: 0,
        malformed: 0,
        deferred: no_deferrals(),
    }
}

impl Default for ListReport {
    fn default() -> (r: Self)
        ensures
            r == empty_report(),
    {
        ListReport {
            seen: 0,
            blocked: 0,
            allowed: 0,
            ignored: 0,
            malformed: 0,
            deferred: Deferrals::default(),
        }
    }
}

/// Two reports as one.
pub open spec fn merged(a: ListReport, b: ListReport) -> ListReport {
    ListReport {
        seen: sat(a.seen as int, b.seen as int),
        blocked: sat(a.blocked as int, b.blocked as int),
        allowed: sat(a.allowed as int, b.allowed as int),
        ignored: sat(a.ignored as int, b.ignored as int),
        malformed: sat(a.malformed as int, b.malformed as int),
        deferred: deferrals_sum(a.deferred, b.deferred),
    }
}

/// The rules of a report, counted together.
pub open spec fn report_total(r: ListReport) -> int {
    r.blocked + r.allowed + r.ignored + r.malformed + deferrals_total(r.deferred)
}

impl ListReport {
    /// Two reports as one, count by count.
    pub fn merge(self, other: Self) -> (r: Self)
        ensures
            r == merged(self, other),
    {
        ListReport {
            seen: self.seen.saturating_add(other.seen),
            blocked: self.blocked.saturating_add(other.blocked),
            allowed: self.allowed.saturating_add(other.allowed),
            ignored: self.ignored.saturating_add(other.ignored),
            malformed: self.malformed.saturating_add(other.malformed),
            deferred: self.deferred.plus(other.deferred),
        }
    }

    /// Lines seen, which is every line of every list compiled into it. A line
    /// that names several hosts is one line, though it holds several rules.
    pub fn lines(self) -> (r: u32)
        ensures
            r == self.seen,
    {
        self.seen
    }
}

/// The report with one more rule.
pub open spec fn noted(r: ListReport, m: Meaning) -> ListReport {
    match m {
        Meaning::Block(_) => ListReport { blocked: sat(r.blocked as int, 1), ..r },
        Meaning::Allow(_) => ListReport { allowed: sat(r.allowed as int, 1), ..r },
        Meaning::Deferred(d) => ListReport { deferred: counted(r.deferred, d), ..r },
        Meaning::Ignored => ListReport { ignored: sat(r.ignored as int, 1), ..r },
        Meaning::Malformed => ListReport { malformed: sat(r.malformed as int, 1), ..r },
    }
}

/// The report on a sequence of rules.
pub open spec fn tally(rules: Seq<Meaning>) -> ListReport
    decreases rules.len(),
{
    if rules.len() == 0 {
        empty_report()
    } else {
        noted(tally(rules.drop_last()), rules.last())
    }
}

/// The report on a list: its lines, and what their rules came to.
pub open spec fn list_report(list: Seq<char>) -> ListReport {
    ListReport { seen: sat(lines_of(list).len() as int, 0), ..tally(list_rules(list)) }
}

/// The policy with one more rule.
pub open spec fn enforced(p: Rules, m: Meaning) -> Rules {
    match m {
        Meaning::Block(n) => hosts::with_rule(p, HostVerdict::Blocked, n),
        Meaning::Allow(n) => hosts::with_rule(p, HostVerdict::Allowed, n),
        _ => p,
    }
}

/// The policy with a sequence of rules.
pub open spec fn compiled(p: Rules, rules: Seq<Meaning>) -> Rules
    decreases rules.len(),
{
    if rules.len() == 0 {
        p
    } else {
        enforced(compiled(p, rules.drop_last()), rules.last())
    }
}

fn take_rule(
    policy: &mut HostPolicy,
    report: &mut ListReport,
    rule: Result<Rule, RuleError>,
)
    requires
        old(policy).wf(),
    ensures
        final(policy).wf(),
        final(policy)@ == enforced(old(policy)@, meaning(rule)),
        *final(report) == noted(*old(report), meaning(rule)),
{
    match rule {
        Ok(Rule::Block(n)) => {
            policy.insert_name(HostVerdict::Blocked, &n);
            report.blocked = report.blocked.saturating_add(1);
        },
        Ok(Rule::Allow(n)) => {
            policy.insert_name(HostVerdict::Allowed, &n);
            report.allowed = report.allowed.saturating_add(1);
        },
        Ok(Rule::Deferred(d)) => {
            report.deferred.count(d);
        },
        Ok(Rule::Ignored) => {
            report.ignored = report.ignored.saturating_add(1);
        },
        Err(_) => {
            report.malformed = report.malformed.saturating_add(1);
        },
    }
}

proof fn lemma_step(p: Rules, rules: Seq<Meaning>, m: Meaning)
    ensures
        tally(rules.push(m)) == noted(tally(rules), m),
        compiled(p, rules.push(m)) == enforced(compiled(p, rules), m),
{
    assert(rules.push(m).drop_last() =~= rules);
}

/// Takes every rule of one line.
fn take_line(
    policy: &mut HostPolicy,
    report: &mut ListReport,
    line: &[char],
    Ghost(start): Ghost<Rules>,
    Ghost(before): Ghost<Seq<Meaning>>,
)
    requires
        old(policy).wf(),
        old(policy)@ == compiled(start, before),
        *old(report) == tally(before),
    ensures
        final(policy).wf(),
        final(policy)@ == compiled(start, before + line_rules(line@)),
        *final(report) == tally(before + line_rules(line@)),
{
    let rule = classify_line(line);
    let ghost first = meaning(rule);
    take_rule(policy, report, rule);
    proof {
        lemma_step(start, before, first);
        assert(before + seq![first] =~= before.push(first));
    }
    let words: Vec<Vec<char>> = split_words(line);
    let n: usize = words.len();
    let ghost w = text::words(line@);
    assert(text::views(words@).len() == words@.len());
    if n <= 2 {
        return;
    }
    assert(w[0] == words@[0]@ && w[1] == words@[1]@);
    if begins_comment(&words[1]) {
        return;
    }
    let sink: bool = match parse_address(words[0].as_slice()) {
        Some(address) => is_sink(address),
        None => false,
    };
    if !sink {
        return;
    }
    let mut i: usize = 2;
    let ghost mut done: Seq<Meaning> = seq![first];
    assert(done + listed(w.skip(2)) =~= line_rules(line@));
    while i < n && !begins_comment(&words[i])
        invariant
            2 <= i <= n,
            n == words@.len(),
            w == text::words(line@),
            w == text::views(words@),
            policy.wf(),
            policy@ == compiled(start, before + done),
            *report == tally(before + done),
            done + listed(w.skip(i as int)) == line_rules(line@),
        decreases n - i,
    {
        let rule = host_rule(words[i].as_slice(), false);
        take_rule(policy, report, rule);
        proof {
            let m = blocking(w[i as int]);
            lemma_step(start, before + done, m);
            assert(before + done.push(m) =~= (before + done).push(m));
            assert(w.skip(i as int).skip(1) =~= w.skip(i + 1));
            assert(w.skip(i as int)[0] == words@[i as int]@);
            assert(done.push(m) + listed(w.skip(i + 1)) =~= done + listed(w.skip(i as int)));
            done = done.push(m);
        }
        i += 1;
    }
    proof {
        if i < n {
            assert(w.skip(i as int)[0] == words@[i as int]@);
        }
        assert(done + listed(w.skip(i as int)) =~= done);
    }
}

impl HostPolicy {
    /// Compiles `list` into this policy, reporting what it took and deferred.
    pub fn extend_from_list(&mut self, list: &str) -> (report: ListReport)
        requires
            old(self).wf(),
        ensures
            final(self).wf(),
            final(self)@ == compiled(old(self)@, list_rules(list@)),
            report == list_report(list@),
    {
        let chars: Vec<char> = chars_of(list);
        let parts: Vec<Vec<char>> = split_chars(chars.as_slice(), '\n');
        let n: usize = parts.len();
        let mut report = ListReport::default();
        let ghost start = self@;
        let ghost p = text::split_at_each(list@, '\n');
        let ghost lines = lines_of(list@);
        let mut i: usize = 0;
        assert(p.len() == n);
        assert(lines.take(0) =~= seq![]);
        while i < n - 1
            invariant
                i <= n - 1,
                n == parts@.len(),
                p == text::views(parts@),
                p == text::split_at_each(list@, '\n'),
                lines == lines_of(list@),
                self.wf(),
                self@ == compiled(start, rules_of(lines.take(i as int))),
                report == tally(rules_of(lines.take(i as int))),
            decreases n - i,
        {
            let part: &[char] = parts[i].as_slice();
            let m: usize = part.len();
            let line: &[char] = if m > 0 && part[m - 1] == '\r' {
                slice_subrange(part, 0, m - 1)
            } else {
                part
            };
            proof {
                assert(p[i as int] == part@);
                if m > 0 && part@.last() == '\r' {
                    assert(line@ =~= part@.drop_last());
                }
                assert(lines[i as int] == line@);
                assert(lines.take(i + 1).drop_last() =~= lines.take(i as int));
            }
            take_line(
                self,
                &mut report,
                line,
                Ghost(start),
                Ghost(rules_of(lines.take(i as int))),
            );
            i += 1;
        }
        let last: &[char] = parts[n - 1].as_slice();
        assert(p.last() == last@);
        if last.len() > 0 {
            proof {
                assert(lines.last() == last@);
                assert(lines.drop_last() =~= lines.take(n - 1));
            }
            take_line(
                self,
                &mut report,
                last,
                Ghost(start),
                Ghost(rules_of(lines.take(n - 1))),
            );
        } else {
            assert(lines.take(n - 1) =~= lines);
        }
        let seen: usize = if last.len() > 0 {
            n
        } else {
            n - 1
        };
        assert(seen == lines.len());
        report.seen = if seen > 0xffff_ffff {
            0xffff_ffff
        } else {
            seen as u32
        };
        report
    }
}

/// Reports merge in any order and grouping, and the empty report changes
/// nothing.
pub proof fn reports_form_a_commutative_monoid(a: ListReport, b: ListReport, c: ListReport)
    ensures
        merged(a, b) == merged(b, a),
        merged(merged(a, b), c) == merged(a, merged(b, c)),
        merged(a, empty_report()) == a,
        merged(empty_report(), a) == a,
{
}

/// The report on two sequences of rules is the merge of their reports, and
/// compiling them one after the other is compiling both.
pub proof fn parts_compile_to_the_whole(p: Rules, a: Seq<Meaning>, b: Seq<Meaning>)
    ensures
        tally(a + b) == merged(tally(a), tally(b)),
        compiled(p, a + b) == compiled(compiled(p, a), b),
    decreases b.len(),
{
    if b.len() == 0 {
        assert(a + b =~= a);
    } else {
        parts_compile_to_the_whole(p, a, b.drop_last());
        assert((a + b).drop_last() =~= a + b.drop_last());
    }
}

/// Every rule of a list is counted exactly once.
pub proof fn every_rule_is_counted_once(rules: Seq<Meaning>)
    ensures
        rules.len() <= u32::MAX ==> report_total(tally(rules)) == rules.len(),
        sat(report_total(tally(rules)), 0) == sat(rules.len() as int, 0),
    decreases rules.len(),
{
    if rules.len() > 0 {
        every_rule_is_counted_once(rules.drop_last());
    }
}

/// The names that a sequence of rules blocks, or exempts.
pub open spec fn names(rules: Seq<Meaning>, verdict: HostVerdict) -> Set<Seq<char>> {
    Set::new(
        |n: Seq<char>|
            match verdict {
                HostVerdict::Blocked => rules.contains(Meaning::Block(n)),
                HostVerdict::Allowed => rules.contains(Meaning::Allow(n)),
            },
    )
}

/// Compiling adds exactly the names of the rules, whatever their order.
pub proof fn compiling_adds_the_names(p: Rules, rules: Seq<Meaning>)
    ensures
        compiled(p, rules) == (Rules {
            blocked: p.blocked + names(rules, HostVerdict::Blocked),
            allowed: p.allowed + names(rules, HostVerdict::Allowed),
        }),
    decreases rules.len(),
{
    if rules.len() == 0 {
        assert(p.blocked + names(rules, HostVerdict::Blocked) =~= p.blocked);
        assert(p.allowed + names(rules, HostVerdict::Allowed) =~= p.allowed);
    } else {
        let rest = rules.drop_last();
        compiling_adds_the_names(p, rest);
        assert(rest.push(rules.last()) =~= rules);
        assert forall|m: Meaning| rules.contains(m) == (rest.contains(m) || m == rules.last()) by {
            if rest.contains(m) {
                let i = choose|i: int| 0 <= i < rest.len() && rest[i] == m;
                assert(rules[i] == m);
            }
            if m == rules.last() {
                assert(rules[rules.len() - 1] == m);
            }
            if rules.contains(m) {
                let i = choose|i: int| 0 <= i < rules.len() && rules[i] == m;
                if i < rest.len() {
                    assert(rest[i] == m);
                }
            }
        }
        let after = compiled(p, rules);
        assert(after.blocked =~= p.blocked + names(rules, HostVerdict::Blocked));
        assert(after.allowed =~= p.allowed + names(rules, HostVerdict::Allowed));
    }
}

/// Compiling a list a second time leaves the policy as it is.
pub proof fn compiling_twice_changes_nothing(p: Rules, rules: Seq<Meaning>)
    ensures
        compiled(compiled(p, rules), rules) == compiled(p, rules),
{
    let once = compiled(p, rules);
    compiling_adds_the_names(p, rules);
    compiling_adds_the_names(once, rules);
    assert(once.blocked + names(rules, HostVerdict::Blocked) =~= once.blocked);
    assert(once.allowed + names(rules, HostVerdict::Allowed) =~= once.allowed);
}

/// A line has one rule, unless it blocks several names: then it has one for
/// each name before a comment, all but the first behind the line's own.
pub proof fn a_line_is_one_rule_or_one_for_each_name(line: Seq<char>)
    ensures
        line_rules(line).len() >= 1,
        line_rules(line)[0] == meant(line),
        line_rules(line).len() > 1 ==> text::words(line).len() > 2 && !starts_comment(
            text::words(line)[1],
        ) && (literal::address_of(text::words(line)[0]) matches Some(a) && sinks(a)),
        forall|i: int|
            1 <= i < line_rules(line).len() ==> i + 1 < text::words(line).len()
                && #[trigger] line_rules(line)[i] == blocking(text::words(line)[i + 1])
                && !starts_comment(text::words(line)[i + 1]),
{
    let w = text::words(line);
    if line_rules(line).len() > 1 {
        lemma_listed(w.skip(2));
        assert forall|i: int| 1 <= i < line_rules(line).len() implies i + 1 < w.len()
            && #[trigger] line_rules(line)[i] == blocking(w[i + 1]) && !starts_comment(
            w[i + 1],
        ) by {
            assert(line_rules(line)[i] == listed(w.skip(2))[i - 1]);
            assert(w.skip(2)[i - 1] == w[i + 1]);
        }
    }
}

proof fn lemma_listed(w: Seq<Seq<char>>)
    ensures
        listed(w).len() <= w.len(),
        forall|i: int|
            0 <= i < listed(w).len() ==> #[trigger] listed(w)[i] == blocking(w[i])
                && !starts_comment(w[i]),
    decreases w.len(),
{
    if w.len() > 0 && !starts_comment(w[0]) {
        lemma_listed(w.skip(1));
        assert forall|i: int| 0 <= i < listed(w).len() implies #[trigger] listed(w)[i] == blocking(
            w[i],
        ) && !starts_comment(w[i]) by {
            if i > 0 {
                assert(listed(w)[i] == listed(w.skip(1))[i - 1]);
                assert(w.skip(1)[i - 1] == w[i]);
            }
        }
    }
}

proof fn lemma_split_joined(a: Seq<char>, b: Seq<char>)
    requires
        a.len() > 0,
        a.last() == '\n',
    ensures
        text::split_at_each(a, '\n').last().len() == 0,
        text::split_at_each(a + b, '\n') == text::split_at_each(a, '\n').drop_last()
            + text::split_at_each(b, '\n'),
    decreases a.len(),
{
    text::lemma_until(a, '\n');
    let n = text::until(a, '\n') as int;
    assert(n < a.len()) by {
        if n == a.len() {
            assert(a[a.len() - 1] != '\n');
        }
    }
    let s = a + b;
    assert forall|i: int| 0 <= i < n implies s[i] != '\n' by {
        assert(a[i] != '\n');
    }
    text::lemma_until_is(s, '\n', n);
    assert(s.take(n) =~= a.take(n));
    let rest = a.skip(n + 1);
    assert(s.skip(n + 1) =~= rest + b);
    let head = seq![a.take(n)];
    if rest.len() == 0 {
        assert(rest + b =~= b);
        assert(rest =~= seq![]);
        assert(text::split_at_each(rest, '\n') =~= seq![rest]);
        assert(text::split_at_each(a, '\n') =~= head.push(rest));
        assert(text::split_at_each(a, '\n').drop_last() =~= head);
    } else {
        lemma_split_joined(rest, b);
        let p = text::split_at_each(rest, '\n');
        assert(text::split_at_each(a, '\n') == head + p);
        assert((head + p).drop_last() =~= head + p.drop_last());
        assert((head + p.drop_last()) + text::split_at_each(b, '\n') =~= head + (p.drop_last()
            + text::split_at_each(b, '\n')));
    }
}

proof fn lemma_rules_append(a: Seq<Seq<char>>, b: Seq<Seq<char>>)
    ensures
        rules_of(a + b) == rules_of(a) + rules_of(b),
    decreases b.len(),
{
    if b.len() == 0 {
        assert(a + b =~= a);
        assert(rules_of(a) + rules_of(b) =~= rules_of(a));
    } else {
        let front = rules_of(a) + rules_of(b.drop_last());
        let last = line_rules(b.last());
        lemma_rules_append(a, b.drop_last());
        assert((a + b).drop_last() =~= a + b.drop_last());
        assert((a + b).last() == b.last());
        assert(rules_of(a + b) == front + last);
        assert(rules_of(b) == rules_of(b.drop_last()) + last);
        assert(front + last =~= rules_of(a) + (rules_of(b.drop_last()) + last));
    }
}

proof fn lemma_split_nonempty(s: Seq<char>)
    ensures
        text::split_at_each(s, '\n').len() > 0,
    decreases s.len(),
{
    text::lemma_until(s, '\n');
    if text::until(s, '\n') < s.len() {
        lemma_split_nonempty(s.skip(text::until(s, '\n') as int + 1));
    }
}

/// Lists can be joined where one ends a line: the rules of both are the rules
/// of one and then the rules of the other.
pub proof fn lists_join_at_a_line_end(a: Seq<char>, b: Seq<char>)
    requires
        a.len() == 0 || a.last() == '\n',
    ensures
        list_rules(a + b) == list_rules(a) + list_rules(b),
        lines_of(a + b) == lines_of(a) + lines_of(b),
        list_report(a + b) == merged(list_report(a), list_report(b)),
{
    parts_compile_to_the_whole(
        Rules { blocked: Set::empty(), allowed: Set::empty() },
        list_rules(a),
        list_rules(b),
    );
    if a.len() == 0 {
        assert(a + b =~= b);
        assert(a =~= seq![]);
        assert(text::split_at_each(a, '\n') =~= seq![a]);
        assert(lines_of(a) =~= seq![]);
        assert(list_rules(a) + list_rules(b) =~= list_rules(b));
        assert(lines_of(a) + lines_of(b) =~= lines_of(b));
    } else {
        lemma_split_joined(a, b);
        lemma_split_nonempty(b);
        let p = text::split_at_each(a, '\n');
        let q = text::split_at_each(b, '\n');
        let whole = text::split_at_each(a + b, '\n');
        assert(whole.last() == q.last());
        assert(lines_of(a + b) =~= lines_of(a) + lines_of(b));
        lemma_rules_append(lines_of(a), lines_of(b));
    }
}

proof fn lemma_words_of_trimmed(t: Seq<char>)
    requires
        t.len() > 0,
        !text::is_space(t[0]),
    ensures
        text::words(t).len() > 0,
        text::words(t)[0].len() > 0,
        text::words(t)[0][0] == t[0],
{
    text::lemma_word_len(t);
    let k = text::word_len(t) as int;
    assert(k > 0);
    assert(text::trimmed_start(t) == t);
    assert(text::words(t) == seq![t.take(k)] + text::words(t.skip(k)));
    assert(text::words(t)[0] == t.take(k));
}

/// A line that starts with none of the characters that an address starts with is
/// no line of a hosts file.
proof fn lemma_no_hosts_line(t: Seq<char>)
    requires
        t.len() > 0,
        !text::is_space(t[0]),
        !('0' <= t[0] <= '9' || 'a' <= t[0] <= 'f' || 'A' <= t[0] <= 'F' || t[0] == ':'),
    ensures
        hosts_meaning(t) is None,
{
    lemma_words_of_trimmed(t);
    let w = text::words(t)[0];
    if literal::address_of(w) is Some {
        literal::an_address_starts_with_a_digit_or_a_colon(w);
    }
}

/// A line of a filter list that is anchored at a domain: `||`, behind `@@` where it
/// is an exception, and a pattern.
pub open spec fn anchored_line(pattern: Seq<char>, exception: bool) -> Seq<char> {
    if exception {
        seq!['@', '@', '|', '|'] + pattern
    } else {
        seq!['|', '|'] + pattern
    }
}

proof fn lemma_anchored(pattern: Seq<char>, exception: bool)
    ensures
        ({
            let t = anchored_line(pattern, exception);
            &&& !is_comment(t)
            &&& hosts_meaning(t) is None
            &&& after_prefix(t, "@@"@) == (if exception {
                Some(seq!['|', '|'] + pattern)
            } else {
                None
            })
            &&& after_prefix(seq!['|', '|'] + pattern, "||"@) == Some(pattern)
        }),
{
    let t = anchored_line(pattern, exception);
    lemma_no_hosts_line(t);
    reveal_strlit("@@");
    reveal_strlit("||");
    let bare = seq!['|', '|'] + pattern;
    assert("||"@ =~= seq!['|', '|']);
    assert("@@"@ =~= seq!['@', '@']);
    assert(bare.take(2) =~= seq!['|', '|']);
    assert(bare.skip(2) =~= pattern);
    if exception {
        assert(t.take(2) =~= seq!['@', '@']);
        assert(t.skip(2) =~= bare);
    } else {
        assert(t[0] != '@');
    }
}

/// Whether one of the marks of a cosmetic rule stands at a place: two number signs, with
/// nothing between them or an at sign, a question mark or a dollar sign.
pub open spec fn marks_at(s: Seq<char>, i: int) -> bool {
    ||| 0 <= i && i + 2 <= s.len() && s[i] == '#' && s[i + 1] == '#'
    ||| 0 <= i && i + 3 <= s.len() && s[i] == '#' && (s[i + 1] == '@' || s[i + 1] == '?' || s[i + 1] == '$') && s[i + 2]
        == '#'
}

/// Whether one of the marks of a cosmetic rule stands anywhere.
pub open spec fn shows_cosmetic(s: Seq<char>) -> bool {
    exists|i: int| #[trigger] marks_at(s, i)
}

proof fn lemma_cosmetic_is_shown(s: Seq<char>)
    ensures
        is_cosmetic(s) == shows_cosmetic(s),
{
    reveal_strlit("##");
    reveal_strlit("#@#");
    reveal_strlit("#?#");
    reveal_strlit("#$#");
    if text::holds(s, "##"@) {
        let i = choose|i: int| 0 <= i <= s.len() - "##"@.len() && #[trigger] s.subrange(i, i + "##"@.len()) == "##"@;
        assert(s.subrange(i, i + 2)[0] == s[i] && s.subrange(i, i + 2)[1] == s[i + 1]);
        assert(marks_at(s, i));
    }
    if text::holds(s, "#@#"@) {
        let i = choose|i: int| 0 <= i <= s.len() - "#@#"@.len() && #[trigger] s.subrange(i, i + "#@#"@.len()) == "#@#"@;
        let w = s.subrange(i, i + 3);
        assert(w[0] == s[i] && w[1] == s[i + 1] && w[2] == s[i + 2]);
        assert(marks_at(s, i));
    }
    if text::holds(s, "#?#"@) {
        let i = choose|i: int| 0 <= i <= s.len() - "#?#"@.len() && #[trigger] s.subrange(i, i + "#?#"@.len()) == "#?#"@;
        let w = s.subrange(i, i + 3);
        assert(w[0] == s[i] && w[1] == s[i + 1] && w[2] == s[i + 2]);
        assert(marks_at(s, i));
    }
    if text::holds(s, "#$#"@) {
        let i = choose|i: int| 0 <= i <= s.len() - "#$#"@.len() && #[trigger] s.subrange(i, i + "#$#"@.len()) == "#$#"@;
        let w = s.subrange(i, i + 3);
        assert(w[0] == s[i] && w[1] == s[i + 1] && w[2] == s[i + 2]);
        assert(marks_at(s, i));
    }
    if shows_cosmetic(s) {
        let i = choose|i: int| #[trigger] marks_at(s, i);
        if i + 2 <= s.len() && s[i + 1] == '#' {
            assert(s.subrange(i, i + "##"@.len()) =~= "##"@);
        } else if s[i + 1] == '@' {
            assert(s.subrange(i, i + "#@#"@.len()) =~= "#@#"@);
        } else if s[i + 1] == '?' {
            assert(s.subrange(i, i + "#?#"@.len()) =~= "#?#"@);
        } else {
            assert(s.subrange(i, i + "#$#"@.len()) =~= "#$#"@);
        }
    }
}

proof fn lemma_shown_behind(front: Seq<char>, rest: Seq<char>)
    requires
        !front.contains('#'),
    ensures
        shows_cosmetic(front + rest) == shows_cosmetic(rest),
{
    let s = front + rest;
    let n = front.len() as int;
    if shows_cosmetic(rest) {
        let i = choose|i: int| #[trigger] marks_at(rest, i);
        assert(marks_at(s, n + i));
    }
    if shows_cosmetic(s) {
        let i = choose|i: int| #[trigger] marks_at(s, i);
        if i < n {
            assert(front[i] == '#');
        }
        assert(marks_at(rest, i - n));
    }
}

/// What an anchored line means, white space round it aside. One with a mark of a cosmetic
/// rule in it is cosmetic. A pattern with options
/// needs the context of a request, and neither blocks nor exempts, exception or
/// not. One with a path or an anchor needs the URL, and one with a wildcard is a
/// pattern. What is left is a host, behind which one separator may stand: it is
/// exempted by an exception and blocked by any other line, with everything under
/// it; a host that is no name, or the root, is malformed.
pub proof fn an_anchored_line_means_its_host(
    line: &str,
    pattern: Seq<char>,
    exception: bool,
    host: Seq<char>,
    r: Result<Rule, RuleError>,
)
    requires
        call_ensures(parse_rule, (line,), r),
        text::trimmed(line@) == anchored_line(pattern, exception),
        pattern == host || pattern == host.push('^'),
        pattern == host ==> host.len() == 0 || host.last() != '^',
    ensures
        pattern.contains('$') ==> !(r is Ok && (r->Ok_0 is Block || r->Ok_0 is Allow)),
        shows_cosmetic(pattern) ==> r == Ok::<Rule, RuleError>(Rule::Deferred(Deferred::Cosmetic)),
        !shows_cosmetic(pattern) ==> {
            &&& pattern.contains('$') ==> r == Ok::<Rule, RuleError>(Rule::Deferred(Deferred::NeedsRequestContext))
            &&& !pattern.contains('$') && (host.contains('/') || host.contains('|')) ==> r == Ok::<Rule, RuleError>(
                Rule::Deferred(Deferred::NeedsUrl),
            )
            &&& !pattern.contains('$') && !host.contains('/') && !host.contains('|') && host.contains('*') ==> r
                == Ok::<Rule, RuleError>(Rule::Deferred(Deferred::Pattern))
            &&& !pattern.contains('$') && !host.contains('/') && !host.contains('|') && !host.contains('*') ==> {
                match name::name_of(host) {
                    None => r is Err,
                    Some(n) => if n.len() == 0 {
                        r is Err
                    } else if exception {
                        r matches Ok(Rule::Allow(found)) && found@ == n
                    } else {
                        r matches Ok(Rule::Block(found)) && found@ == n
                    },
                }
            }
        },
{
    let t = text::trimmed(line@);
    lemma_anchored(pattern, exception);
    lemma_cosmetic_is_shown(t);
    lemma_shown_behind(seq!['|', '|'], pattern);
    lemma_shown_behind(seq!['@', '@', '|', '|'], pattern);
    if pattern.len() > 0 && pattern.last() == '^' {
        assert(pattern == host.push('^'));
        assert(host.push('^').drop_last() =~= host);
    } else {
        assert(pattern == host) by {
            if pattern == host.push('^') {
                assert(pattern.last() == '^');
            }
        }
    }
}

/// Only an anchored exception exempts: a line that exempts a name is `@@||` and a
/// host of that name, with a separator behind it or without, and nothing else.
pub proof fn only_an_anchored_exception_exempts(line: &str, r: Result<Rule, RuleError>)
    requires
        call_ensures(parse_rule, (line,), r),
        r matches Ok(Rule::Allow(_)),
    ensures
        exists|host: Seq<char>| #[trigger]
            name::name_of(host) == Some(r->Ok_0->Allow_0@) && (text::trimmed(line@) == anchored_line(host, true)
                || text::trimmed(line@) == anchored_line(host.push('^'), true)) && !host.contains('$')
                && !host.contains('/') && !host.contains('|') && !host.contains('*'),
{
    let t = text::trimmed(line@);
    reveal_strlit("@@");
    reveal_strlit("||");
    let (rest, exception) = match after_prefix(t, "@@"@) {
        Some(rest) => (rest, true),
        None => (t, false),
    };
    assert(exception);
    let p = rest.skip(2);
    assert(t =~= seq!['@', '@', '|', '|'] + p) by {
        assert("@@"@ =~= t.take(2));
        assert("||"@ =~= rest.take(2));
        assert(t[0] == "@@"@[0] && t[1] == "@@"@[1]);
        assert(t[2] == rest[0] && t[3] == rest[1]);
        assert(rest[0] == "||"@[0] && rest[1] == "||"@[1]);
    }
    assert(after_prefix(rest, "||"@) == Some(p));
    let host = if p.len() > 0 && p.last() == '^' {
        p.drop_last()
    } else {
        p
    };
    assert(name::name_of(host) == Some(r->Ok_0->Allow_0@));
    if p.len() > 0 && p.last() == '^' {
        assert(host.push('^') =~= p);
    }
    assert(!host.contains('$')) by {
        if host.contains('$') {
            let i = choose|i: int| 0 <= i < host.len() && host[i] == '$';
            assert(p[i] == '$');
        }
    }
}

/// Only two kinds of line block: `||` and a host, with a separator behind it or
/// without, and a line of a hosts file whose address is a sink and whose first name
/// is the one that is blocked.
pub proof fn only_anchored_hosts_and_sinks_block(line: &str, r: Result<Rule, RuleError>)
    requires
        call_ensures(parse_rule, (line,), r),
        r matches Ok(Rule::Block(_)),
    ensures
        (exists|host: Seq<char>| #[trigger]
            name::name_of(host) == Some(r->Ok_0->Block_0@) && (text::trimmed(line@) == anchored_line(host, false)
                || text::trimmed(line@) == anchored_line(host.push('^'), false)) && !host.contains('$')
                && !host.contains('/') && !host.contains('|') && !host.contains('*')) || ({
            let w = text::words(text::trimmed(line@));
            &&& w.len() >= 2
            &&& literal::address_of(w[0]) is Some
            &&& match literal::address_of(w[0])->0 {
                crate::addr::IpAddr::V4(a) => a.a == 127 || (a.a == 0 && a.b == 0 && a.c == 0 && a.d == 0),
                crate::addr::IpAddr::V6(a) => a.a == 0 && a.b == 0 && a.c == 0 && a.d == 0 && a.e == 0 && a.f == 0
                    && a.g == 0 && a.h <= 1,
            }
            &&& name::name_of(w[1]) == Some(r->Ok_0->Block_0@)
            &&& w[1].len() == 0 || w[1][0] != '#'
        }),
{
    let t = text::trimmed(line@);
    reveal_strlit("@@");
    reveal_strlit("||");
    if hosts_meaning(t) is None {
        assert(after_prefix(t, "@@"@) is None);
        let p = t.skip(2);
        assert(t =~= seq!['|', '|'] + p) by {
            assert("||"@ =~= t.take(2));
            assert(t[0] == "||"@[0] && t[1] == "||"@[1]);
        }
        assert(after_prefix(t, "||"@) == Some(p));
        let host = if p.len() > 0 && p.last() == '^' {
            p.drop_last()
        } else {
            p
        };
        assert(name::name_of(host) == Some(r->Ok_0->Block_0@));
        if p.len() > 0 && p.last() == '^' {
            assert(host.push('^') =~= p);
        }
        assert(!host.contains('$')) by {
            if host.contains('$') {
                let i = choose|i: int| 0 <= i < host.len() && host[i] == '$';
                assert(p[i] == '$');
            }
        }
    } else {
        let w = text::words(t);
        let a = literal::address_of(w[0])->0;
        assert(sinks(a));
        lemma_sinks(a);
    }
}

proof fn lemma_sinks(a: crate::addr::IpAddr)
    ensures
        sinks(a) == (match a {
            crate::addr::IpAddr::V4(a) => a.a == 127 || (a.a == 0 && a.b == 0 && a.c == 0 && a.d == 0),
            crate::addr::IpAddr::V6(a) => a.a == 0 && a.b == 0 && a.c == 0 && a.d == 0 && a.e == 0 && a.f == 0 && a.g
                == 0 && a.h <= 1,
        }),
{
    literal::four_kinds_of_address_are_sinks(a, sinks(a));
}

/// A line of a hosts file: an address, a name, and what follows. Where the name is
/// a comment there is nothing to enforce. Where the address is one at which nothing
/// answers, the name is blocked, with everything under it; any other address is a
/// mapping, and maps nothing here.
pub proof fn a_hosts_line_blocks_at_a_sink(line: &str, r: Result<Rule, RuleError>)
    requires
        call_ensures(parse_rule, (line,), r),
        text::words(text::trimmed(line@)).len() >= 2,
        literal::address_of(text::words(text::trimmed(line@))[0]) is Some,
    ensures
        ({
            let w = text::words(text::trimmed(line@));
            let sunk = match literal::address_of(w[0])->0 {
                crate::addr::IpAddr::V4(a) => a.a == 127 || (a.a == 0 && a.b == 0 && a.c == 0 && a.d == 0),
                crate::addr::IpAddr::V6(a) => a.a == 0 && a.b == 0 && a.c == 0 && a.d == 0 && a.e == 0 && a.f == 0
                    && a.g == 0 && a.h <= 1,
            };
            if w[1].len() > 0 && w[1][0] == '#' {
                r == Ok::<Rule, RuleError>(Rule::Ignored)
            } else if !sunk {
                r == Ok::<Rule, RuleError>(Rule::Deferred(Deferred::HostsMapping))
            } else {
                match name::name_of(w[1]) {
                    None => r is Err,
                    Some(n) => if n.len() == 0 {
                        r is Err
                    } else {
                        r matches Ok(Rule::Block(found)) && found@ == n
                    },
                }
            }
        }),
{
    let t = text::trimmed(line@);
    let w = text::words(t);
    lemma_sinks(literal::address_of(w[0])->0);
    literal::an_address_starts_with_a_digit_or_a_colon(w[0]);
    if t.len() == 0 {
        assert(text::words(t) =~= seq![]);
    } else {
        text::trimming_takes_exactly_the_outer_white_space(line@);
        lemma_words_of_trimmed(t);
    }
}

/// Blank lines, and lines that start with an exclamation mark, an opening bracket,
/// or a number sign that begins no cosmetic rule, hold nothing to enforce.
pub proof fn comments_hold_nothing(line: &str, r: Result<Rule, RuleError>)
    requires
        call_ensures(parse_rule, (line,), r),
    ensures
        ({
            let t = text::trimmed(line@);
            &&& t.len() == 0 ==> r == Ok::<Rule, RuleError>(Rule::Ignored)
            &&& t.len() > 0 && (t[0] == '!' || t[0] == '[') ==> r == Ok::<Rule, RuleError>(Rule::Ignored)
            &&& t.len() == 1 && t[0] == '#' ==> r == Ok::<Rule, RuleError>(Rule::Ignored)
            &&& t.len() > 1 && t[0] == '#' && t[1] != '#' && t[1] != '@' && t[1] != '?' && t[1] != '$' && t[1]
                != '%' ==> r == Ok::<Rule, RuleError>(Rule::Ignored)
            &&& t.len() > 1 && t[0] == '#' && (t[1] == '#' || t[1] == '@' || t[1] == '?' || t[1] == '$' || t[1]
                == '%') ==> r != Ok::<Rule, RuleError>(Rule::Ignored)
        }),
{
    let t = text::trimmed(line@);
    if t.len() > 1 && t[0] == '#' {
        lemma_no_hosts_line(t);
    }
}

/// A line with one of the marks of a cosmetic rule in it is cosmetic, unless it is
/// a comment or starts with an address; so no such line blocks or exempts. Any
/// other line that is not anchored at a domain needs the URL.
pub proof fn what_is_not_anchored_is_deferred(line: &str, r: Result<Rule, RuleError>)
    requires
        call_ensures(parse_rule, (line,), r),
        text::trimmed(line@).len() > 0,
        ({
            let t = text::trimmed(line@);
            let c = t[0];
            &&& c != '!' && c != '[' && !('0' <= c <= '9' || 'a' <= c <= 'f' || 'A' <= c <= 'F' || c == ':')
            &&& c == '#' ==> t.len() > 1 && (t[1] == '#' || t[1] == '@' || t[1] == '?' || t[1] == '$' || t[1] == '%')
        }),
    ensures
        ({
            let t = text::trimmed(line@);
            &&& shows_cosmetic(t) ==> r == Ok::<Rule, RuleError>(Rule::Deferred(Deferred::Cosmetic))
            &&& !shows_cosmetic(t) && !(t.len() >= 2 && t[0] == '|' && t[1] == '|') && !(t.len() >= 4 && t[0] == '@'
                && t[1] == '@' && t[2] == '|' && t[3] == '|') ==> r == Ok::<Rule, RuleError>(
                Rule::Deferred(Deferred::NeedsUrl),
            )
        }),
{
    let t = text::trimmed(line@);
    text::trimming_takes_exactly_the_outer_white_space(line@);
    lemma_no_hosts_line(t);
    lemma_cosmetic_is_shown(t);
    reveal_strlit("@@");
    reveal_strlit("||");
    if after_prefix(t, "@@"@) is Some {
        assert(t[0] == "@@"@[0] && t[1] == "@@"@[1]);
        let rest = t.skip(2);
        if after_prefix(rest, "||"@) is Some {
            assert(rest[0] == "||"@[0] && rest[1] == "||"@[1]);
        }
    } else if after_prefix(t, "||"@) is Some {
        assert(t[0] == "||"@[0] && t[1] == "||"@[1]);
    }
}

proof fn lemma_listed_all(w: Seq<Seq<char>>, n: int)
    requires
        0 <= n <= w.len(),
        forall|i: int| 0 <= i < n ==> (#[trigger] w[i]).len() == 0 || w[i][0] != '#',
        n == w.len() || (w[n].len() > 0 && w[n][0] == '#'),
    ensures
        listed(w).len() == n,
    decreases w.len(),
{
    if n > 0 {
        let rest = w.skip(1);
        assert(!starts_comment(w[0]));
        assert forall|i: int| 0 <= i < n - 1 implies (#[trigger] rest[i]).len() == 0 || rest[i][0] != '#' by {
            assert(rest[i] == w[i + 1]);
        }
        if n < w.len() {
            assert(rest[n - 1] == w[n]);
        }
        lemma_listed_all(rest, n - 1);
    }
}

/// A line that sinks several names has a rule for each of them, up to a comment: as
/// many rules as names, and the one for each name behind the first blocks it.
pub proof fn every_name_of_a_line_is_blocked(line: Seq<char>, n: int)
    requires
        ({
            let w = text::words(line);
            &&& 2 <= n <= w.len()
            &&& literal::address_of(w[0]) is Some
            &&& sinks(literal::address_of(w[0])->0)
            &&& forall|i: int| 1 <= i < n ==> (#[trigger] w[i]).len() == 0 || w[i][0] != '#'
            &&& n == w.len() || (w[n].len() > 0 && w[n][0] == '#')
        }),
    ensures
        line_rules(line).len() == n - 1,
        line_rules(line)[0] == meant(line),
        forall|i: int|
            2 <= i < n ==> match name::name_of(#[trigger] text::words(line)[i]) {
                Some(m) if m.len() > 0 => line_rules(line)[i - 1] == Meaning::Block(m),
                _ => line_rules(line)[i - 1] == Meaning::Malformed,
            },
{
    let w = text::words(line);
    let rest = w.skip(2);
    assert(w[1].len() == 0 || w[1][0] != '#');
    assert forall|i: int| 0 <= i < n - 2 implies (#[trigger] rest[i]).len() == 0 || rest[i][0] != '#' by {
        assert(rest[i] == w[i + 2]);
    }
    if n < w.len() {
        assert(rest[n - 2] == w[n]);
    }
    lemma_listed_all(rest, n - 2);
    lemma_listed(rest);
    assert forall|i: int| 2 <= i < n implies match name::name_of(#[trigger] w[i]) {
        Some(m) if m.len() > 0 => line_rules(line)[i - 1] == Meaning::Block(m),
        _ => line_rules(line)[i - 1] == Meaning::Malformed,
    } by {
        assert(rest[i - 2] == w[i]);
        assert(line_rules(line)[i - 1] == listed(rest)[i - 2]);
    }
    if w.len() == 2 {
        assert(rest =~= seq![]);
    }
}

/// A text without a line feed is one line, or none where it is empty; with a line
/// feed behind it, it is one line without the carriage return that may stand before
/// it.
pub proof fn a_line_ends_at_its_feed(s: Seq<char>)
    requires
        !s.contains('\n'),
    ensures
        lines_of(s) == (if s.len() == 0 {
            Seq::<Seq<char>>::empty()
        } else {
            seq![s]
        }),
        lines_of(s.push('\n')) == seq![
            if s.len() > 0 && s.last() == '\r' {
                s.drop_last()
            } else {
                s
            },
        ],
{
    text::separators_part_a_text(s, s, '\n');
    assert(lines_of(s) =~= (if s.len() == 0 {
        Seq::<Seq<char>>::empty()
    } else {
        seq![s]
    }));
    let none = Seq::<char>::empty();
    text::separators_part_a_text(s, none, '\n');
    assert(s + seq!['\n'] + none =~= s.push('\n'));
    assert(lines_of(s.push('\n')) =~= seq![
        if s.len() > 0 && s.last() == '\r' {
            s.drop_last()
        } else {
            s
        },
    ]);
}

/// A rule is counted for what it is: one more of its kind, and no other count grows.
pub proof fn a_rule_is_counted_for_what_it_is(m: Meaning)
    ensures
        ({
            let r = tally(seq![m]);
            &&& r.seen == 0
            &&& r.blocked == (if m is Block { 1int } else { 0 })
            &&& r.allowed == (if m is Allow { 1int } else { 0 })
            &&& r.ignored == (if m is Ignored { 1int } else { 0 })
            &&& r.malformed == (if m is Malformed { 1int } else { 0 })
            &&& r.deferred.needs_url == (if m == Meaning::Deferred(Deferred::NeedsUrl) { 1int } else { 0 })
            &&& r.deferred.needs_request_context == (if m == Meaning::Deferred(Deferred::NeedsRequestContext) {
                1int
            } else {
                0
            })
            &&& r.deferred.cosmetic == (if m == Meaning::Deferred(Deferred::Cosmetic) { 1int } else { 0 })
            &&& r.deferred.hosts_mapping == (if m == Meaning::Deferred(Deferred::HostsMapping) { 1int } else { 0 })
            &&& r.deferred.pattern == (if m == Meaning::Deferred(Deferred::Pattern) { 1int } else { 0 })
        }),
{
    let one = seq![m];
    assert(one.drop_last() =~= seq![]);
    assert(tally(one.drop_last()) == empty_report());
}

/// Compiling a list blocks and exempts exactly what its rules say, besides what the
/// policy held; and it reports every line once.
pub proof fn compiling_a_list_adds_what_its_lines_say(policy: &mut HostPolicy, list: &str, report: ListReport)
    requires
        old(policy).wf(),
        call_ensures(HostPolicy::extend_from_list, (policy, list), report),
    ensures
        forall|n: Seq<char>| #[trigger]
            final(policy)@.blocked.contains(n) <==> old(policy)@.blocked.contains(n) || list_rules(list@).contains(
                Meaning::Block(n),
            ),
        forall|n: Seq<char>| #[trigger]
            final(policy)@.allowed.contains(n) <==> old(policy)@.allowed.contains(n) || list_rules(list@).contains(
                Meaning::Allow(n),
            ),
        lines_of(list@).len() <= u32::MAX ==> report.seen == lines_of(list@).len(),
        list_rules(list@).len() <= u32::MAX ==> report.blocked + report.allowed + report.ignored + report.malformed
            + report.deferred.needs_url + report.deferred.needs_request_context + report.deferred.cosmetic
            + report.deferred.hosts_mapping + report.deferred.pattern == list_rules(list@).len(),
{
    compiling_adds_the_names(old(policy)@, list_rules(list@));
    every_rule_is_counted_once(list_rules(list@));
}

} // verus!
