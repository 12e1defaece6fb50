//! Sessions: recognising what a connection speaks and for whom, and deciding
//! whether it is intercepted or spliced.
//!
//! Only a named host on the allowlist is intercepted; everything else is
//! spliced, with a reason.

use vstd::prelude::*;

use crate::clock::Duration;
#[allow(unused_imports)]
use crate::fields;
use crate::fields::{same_ignoring_case, Field};
#[allow(unused_imports)]
use crate::mirror;
use crate::mirror::{read_hello, ClientProfile, Hello, Identity, Offer};
use crate::mitm::{InterceptDecision, InterceptPolicy, Wire};
#[allow(unused_imports)]
use crate::mitm;
#[allow(unused_imports)]
use crate::name;
use crate::name::DomainName;
#[allow(unused_imports)]
use crate::reader;
use crate::reader::Reader;
use crate::target::{SocketAddr, Target};
#[allow(unused_imports)]
use crate::text;
use crate::text::{push_text, utf8_text};

verus! {

pub const RECORD_HANDSHAKE: u8 = 0x16;

pub const RECORD_MAJOR: u8 = 0x03;

/// The longest record with its header.
pub const MAX_RECORD: usize = 16_389;

/// The most fields that are read of a request's head.
pub const MAX_REQUEST_HEADERS: usize = 64;

/// What the first bytes of a connection say.
#[derive(Clone, Debug, PartialEq, Eq)]
pub enum Introduction {
    Incomplete,
    Tls(Hello),
    Http { host: Option<DomainName> },
    Plain,
}

/// What the first bytes say, over texts.
pub enum Intro {
    Incomplete,
    Tls(Identity),
    Http(Option<Seq<char>>),
    Plain,
}

/// The text of a host, if there is one.
pub open spec fn host_text(host: Option<DomainName>) -> Option<Seq<char>> {
    match host {
        Some(h) => Some(h@),
        None => None,
    }
}

pub open spec fn intro_of(i: Introduction) -> Intro {
    match i {
        Introduction::Incomplete => Intro::Incomplete,
        Introduction::Tls(hello) => Intro::Tls(hello@),
        Introduction::Http { host } => Intro::Http(host_text(host)),
        Introduction::Plain => Intro::Plain,
    }
}

/// The fields of a request's head as `httparse` reads them: `None` where the
/// bytes are no request, `Some(None)` where the head is not whole yet.
pub uninterp spec fn parsed_head(bytes: Seq<u8>, limit: usize) -> Option<
    Option<Seq<(Seq<u8>, Seq<u8>)>>,
>;

/// `httparse::Request::parse` with room for `limit` fields: the names and values
/// of a whole head, in order. The grammar is the crate's, named and not written
/// out here.
#[verifier::external_body]
fn parse_head(bytes: &[u8], limit: usize) -> (r: Option<Option<Vec<Field>>>)
    requires
        limit <= 1024,
    ensures
        r is Some == parsed_head(bytes@, limit) is Some,
        r is Some ==> r->0 is Some == parsed_head(bytes@, limit)->0 is Some,
        r is Some && r->0 is Some ==> fields::block(r->0->0@) == parsed_head(bytes@, limit)->0->0,
{
    let mut room = vec![httparse::EMPTY_HEADER; limit];
    let mut request = httparse::Request::new(&mut room);
    match request.parse(bytes) {
        Ok(httparse::Status::Complete(_)) => Some(Some(
            request.headers.iter().map(|f| (f.name.as_bytes().to_vec(), f.value.to_vec())).collect(),
        )),
        Ok(httparse::Status::Partial) => Some(None),
        Err(_) => None,
    }
}

/// The host of an authority as `http::uri::Authority` reads it.
pub uninterp spec fn authority_host(text: Seq<char>) -> Option<Seq<char>>;

/// `http::uri::Authority::from_str` and its `host`: the host of a text that is
/// an authority, without its port. The grammar is the crate's, named and not
/// written out here.
#[verifier::external_body]
fn parse_authority(text: &str) -> (r: Option<String>)
    ensures
        r is Some == authority_host(text@) is Some,
        r is Some ==> r->0@ == authority_host(text@)->0,
{
    text.parse::<http::uri::Authority>().ok().map(|found| found.host().to_string())
}

/// The value of the first field named `host`, case aside.
pub open spec fn host_value(block: Seq<(Seq<u8>, Seq<u8>)>) -> Option<Seq<u8>>
    decreases block.len(),
{
    if block.len() == 0 {
        None
    } else if text::lowered(block[0].0) == text::lowered(fields::ascii("host"@)) {
        Some(block[0].1)
    } else {
        host_value(block.skip(1))
    }
}

/// The host that a `host` field names.
pub open spec fn host_of(block: Seq<(Seq<u8>, Seq<u8>)>) -> Option<Seq<char>> {
    match host_value(block) {
        None => None,
        Some(value) => if vstd::utf8::valid_utf8(value) {
            match authority_host(vstd::utf8::decode_utf8(value)) {
                Some(host) if name::is_domain(host) => Some(host),
                _ => None,
            }
        } else {
            None
        },
    }
}

/// The host that an authority's host names.
pub fn named_host(found: Option<String>) -> (r: Option<DomainName>)
    ensures
        host_text(r) == (match found {
            Some(host) if name::is_domain(host@) => Some(host@),
            _ => None::<Seq<char>>,
        }),
{
    match found {
        Some(host) => match DomainName::new(host.as_str()) {
            Ok(host) => Some(host),
            Err(_) => None,
        },
        None => None,
    }
}

fn host_field(block: &Vec<Field>) -> (r: Option<DomainName>)
    ensures
        host_text(r) == host_of(fields::block(block@)),
{
    let ghost all = fields::block(block@);
    let n: usize = block.len();
    let mut i: usize = 0;
    assert(all.skip(0) =~= all);
    while i < n
        invariant
            i <= n,
            n == block@.len(),
            all == fields::block(block@),
            host_value(all.skip(i as int)) == host_value(all),
        decreases n - i,
    {
        assert(all.skip(i as int)[0] == (block@[i as int].0@, block@[i as int].1@));
        if same_ignoring_case(block[i].0.as_slice(), "host".as_bytes()) {
            return match utf8_text(block[i].1.as_slice()) {
                Some(text) => named_host(parse_authority(text)),
                None => None,
            };
        }
        assert(all.skip(i as int).skip(1) =~= all.skip(i + 1));
        i += 1;
    }
    None
}

/// What a request's head says, given as what was parsed of it.
pub open spec fn head_intro(parsed: Option<Option<Seq<(Seq<u8>, Seq<u8>)>>>) -> Intro {
    match parsed {
        None => Intro::Plain,
        Some(None) => Intro::Incomplete,
        Some(Some(block)) => Intro::Http(host_of(block)),
    }
}

/// What a parsed head says.
pub fn take_head(parsed: Option<Option<Vec<Field>>>) -> (r: Introduction)
    ensures
        intro_of(r) == head_intro(
            match parsed {
                None => None,
                Some(None) => Some(None),
                Some(Some(block)) => Some(Some(fields::block(block@))),
            },
        ),
{
    match parsed {
        None => Introduction::Plain,
        Some(None) => Introduction::Incomplete,
        Some(Some(block)) => Introduction::Http { host: host_field(&block) },
    }
}

/// What the first bytes of a connection say.
pub open spec fn introduced(bytes: Seq<u8>) -> Intro {
    if bytes.len() < 3 {
        Intro::Incomplete
    } else if bytes[0] != RECORD_HANDSHAKE || bytes[1] != RECORD_MAJOR {
        head_intro(parsed_head(bytes, MAX_REQUEST_HEADERS))
    } else {
        match reader::long_field(bytes.skip(3)) {
            None => Intro::Incomplete,
            Some((record, _)) => Intro::Tls(mirror::identity_in(record)),
        }
    }
}

/// Reads the first bytes of a connection.
pub fn introduce(bytes: &[u8]) -> (r: Introduction)
    ensures
        intro_of(r) == introduced(bytes@),
{
    let mut reader = Reader::new(bytes);
    let head: &[u8] = match reader.take(3) {
        Some(head) => head,
        None => {
            return Introduction::Incomplete;
        },
    };
    if head[0] != RECORD_HANDSHAKE || head[1] != RECORD_MAJOR {
        return take_head(parse_head(bytes, MAX_REQUEST_HEADERS));
    }
    match reader.vector_u16() {
        Some(record) => Introduction::Tls(read_hello(record)),
        None => Introduction::Incomplete,
    }
}

/// A record is judged once it is whole, and what follows it changes nothing:
/// every proper prefix is incomplete, and every longer one says the same.
pub proof fn a_record_is_judged_once_it_is_whole(bytes: Seq<u8>, cut: int)
    requires
        introduced(bytes) is Tls,
        0 <= cut <= bytes.len(),
    ensures
        cut < 5 + reader::two(bytes.skip(3)) ==> introduced(bytes.take(cut)) is Incomplete,
        cut >= 5 + reader::two(bytes.skip(3)) ==> introduced(bytes.take(cut)) == introduced(bytes),
{
    head_is_not_tls(bytes);
    let t = bytes.take(cut);
    let n = reader::two(bytes.skip(3)) as int;
    assert(bytes.skip(3).skip(2) =~= bytes.skip(5));
    if cut >= 5 {
        assert(t.skip(3)[0] == bytes.skip(3)[0] && t.skip(3)[1] == bytes.skip(3)[1]);
        if cut >= 5 + n {
            assert(t.skip(3).skip(2).take(n) =~= bytes.skip(3).skip(2).take(n));
        }
    }
}

proof fn head_is_not_tls(bytes: Seq<u8>)
    requires
        introduced(bytes) is Tls,
    ensures
        bytes.len() >= 5,
        bytes[0] == RECORD_HANDSHAKE,
        bytes[1] == RECORD_MAJOR,
{
}

/// Whether a connection is read on before it is judged.
#[derive(Clone, Debug, PartialEq, Eq)]
pub enum Peek {
    More,
    Judged(Introduction),
}

/// What to do with the bytes read so far. A connection that stays undecided
/// past a whole record is judged as it is.
pub fn peek_step(bytes: &[u8]) -> (r: Peek)
    ensures
        introduced(bytes@) is Incomplete && bytes@.len() < MAX_RECORD ==> r is More,
        !(introduced(bytes@) is Incomplete && bytes@.len() < MAX_RECORD) ==> (r matches Peek::Judged(
            i,
        ) && intro_of(i) == introduced(bytes@)),
{
    match introduce(bytes) {
        Introduction::Incomplete => {
            if bytes.len() < MAX_RECORD {
                Peek::More
            } else {
                Peek::Judged(Introduction::Incomplete)
            }
        },
        judged => Peek::Judged(judged),
    }
}

/// Why a host is no longer intercepted, or not rewritten.
#[derive(Clone, Copy, Debug, PartialEq, Eq, Structural)]
pub enum Demotion {
    /// A client refused the forged certificate.
    LeafRejected,
    /// A rewrite was given up.
    RewriteExhausted,
}

/// How far interception goes.
#[derive(Clone, Copy, Debug, PartialEq, Eq, Structural)]
pub enum InterceptedTier {
    Inspect,
    Rewrite,
}

impl InterceptedTier {
    /// Whether bodies are rewritten.
    pub fn rewrites(self) -> (r: bool)
        ensures
            r == (self == InterceptedTier::Rewrite),
    {
        match self {
            InterceptedTier::Rewrite => true,
            InterceptedTier::Inspect => false,
        }
    }
}

/// Why a connection is spliced.
#[derive(Clone, Copy, Debug, PartialEq, Eq, Structural)]
pub enum SpliceReason {
    NotAllowlisted,
    Unnamed,
    NotTls,
    Undecided,
    Demoted(Demotion),
    OriginHandshake,
}

/// What became of a session.
#[derive(Clone, Debug, PartialEq, Eq)]
pub enum Handling {
    Intercepted { host: DomainName, wire: Wire, tier: InterceptedTier },
    Spliced { reason: SpliceReason },
    Demoted { host: DomainName, cause: Demotion },
}

/// Why a session failed.
#[derive(Clone, Debug, PartialEq, Eq)]
pub enum SessionError {
    Upstream(String),
    ClientHandshake(String),
    Transfer(String),
}

impl SessionError {
    pub fn text(&self) -> (r: String)
        ensures
            r@ == (match self {
                SessionError::Upstream(e) => "upstream unreachable: "@ + e@,
                SessionError::ClientHandshake(e) => "client handshake failed: "@ + e@,
                SessionError::Transfer(e) => "transfer failed: "@ + e@,
            }),
    {
        let mut r = String::new();
        match self {
            SessionError::Upstream(e) => {
                push_text(&mut r, "upstream unreachable: ");
                push_text(&mut r, e.as_str());
                assert(r@ =~= "upstream unreachable: "@ + e@);
            },
            SessionError::ClientHandshake(e) => {
                push_text(&mut r, "client handshake failed: ");
                push_text(&mut r, e.as_str());
                assert(r@ =~= "client handshake failed: "@ + e@);
            },
            SessionError::Transfer(e) => {
                push_text(&mut r, "transfer failed: ");
                push_text(&mut r, e.as_str());
                assert(r@ =~= "transfer failed: "@ + e@);
            },
        }
        r
    }
}

/// How long a session may take.
#[derive(Clone, Copy, Debug, PartialEq, Eq, Structural)]
pub struct SessionLimits {
    pub peek_timeout: Duration,
}

impl Default for SessionLimits {
    fn default() -> (r: Self)
        ensures
            r.peek_timeout.nanos == 5_000_000_000,
    {
        SessionLimits { peek_timeout: Duration::from_secs(5) }
    }
}

/// How a named client is met.
#[derive(Clone, Debug, PartialEq, Eq)]
pub enum Approach {
    Tls { profile: ClientProfile, alpn: Offer },
    Cleartext,
}

/// A connection that may be intercepted, or the reason why it is not.
#[derive(Clone, Debug, PartialEq, Eq)]
pub enum Meeting {
    Splice(SpliceReason),
    Candidate { host: DomainName, approach: Approach },
}

/// Why an introduction is spliced whatever the allowlist says.
pub open spec fn unnamed(i: Intro) -> Option<SpliceReason> {
    match i {
        Intro::Tls(id) => if id.host is None {
            Some(SpliceReason::Unnamed)
        } else {
            None
        },
        Intro::Http(host) => if host is None {
            Some(SpliceReason::Unnamed)
        } else {
            None
        },
        Intro::Plain => Some(SpliceReason::NotTls),
        Intro::Incomplete => Some(SpliceReason::Undecided),
    }
}

/// The host that an introduction names.
pub open spec fn intro_host(i: Intro) -> Option<Seq<char>> {
    match i {
        Intro::Tls(id) => id.host,
        Intro::Http(host) => host,
        _ => None,
    }
}

/// Meets a connection: one that names a host on the allowlist may be
/// intercepted.
pub fn meet(introduction: Introduction, policy: &InterceptPolicy) -> (r: Meeting)
    requires
        policy.wf(),
    ensures
        match unnamed(intro_of(introduction)) {
            Some(reason) => r == Meeting::Splice(reason),
            None => if !policy@.contains(name::lowered(intro_host(intro_of(introduction))->0)) {
                r == Meeting::Splice(SpliceReason::NotAllowlisted)
            } else {
                r matches Meeting::Candidate { host, approach } && Some(host@) == intro_host(
                    intro_of(introduction),
                ) && match introduction {
                    Introduction::Tls(hello) => approach == (Approach::Tls {
                        profile: hello.profile,
                        alpn: hello.alpn,
                    }),
                    _ => approach == Approach::Cleartext,
                }
            },
        },
{
    let (host, approach): (DomainName, Approach) = match introduction {
        Introduction::Incomplete => {
            return Meeting::Splice(SpliceReason::Undecided);
        },
        Introduction::Plain => {
            return Meeting::Splice(SpliceReason::NotTls);
        },
        Introduction::Tls(hello) => match hello.host {
            Some(host) => (host, Approach::Tls { profile: hello.profile, alpn: hello.alpn }),
            None => {
                return Meeting::Splice(SpliceReason::Unnamed);
            },
        },
        Introduction::Http { host } => match host {
            Some(host) => (host, Approach::Cleartext),
            None => {
                return Meeting::Splice(SpliceReason::Unnamed);
            },
        },
    };
    match policy.decide(host.as_str()) {
        InterceptDecision::Splice => Meeting::Splice(SpliceReason::NotAllowlisted),
        InterceptDecision::Intercept => Meeting::Candidate { host, approach },
    }
}

/// How far a candidate may be intercepted, given its standing: a recorded
/// demotion is the only one that splices.
fn stand(standing: Result<InterceptedTier, Demotion>) -> (r: Result<
    InterceptedTier,
    SpliceReason,
>)
    ensures
        match standing {
            Ok(tier) => r == Ok::<InterceptedTier, SpliceReason>(tier),
            Err(cause) => r == Err::<InterceptedTier, SpliceReason>(SpliceReason::Demoted(cause)),
        },
{
    match standing {
        Ok(tier) => Ok(tier),
        Err(cause) => Err(SpliceReason::Demoted(cause)),
    }
}

/// The wire of both legs: what the origin selected, or HTTP/1 without TLS.
fn session_wire(approach: &Approach, selected: Option<&[u8]>) -> (r: Wire)
    ensures
        r == (if *approach is Tls {
            match selected {
                Some(name) => match mitm::wire_of(name@) {
                    Some(wire) => wire,
                    None => Wire::Http1,
                },
                None => Wire::Http1,
            }
        } else {
            Wire::Http1
        }),
{
    match approach {
        Approach::Tls { profile: _, alpn: _ } => Wire::from_alpn(selected),
        Approach::Cleartext => Wire::Http1,
    }
}

/// What is learned from a client that ended its handshake. The connection is
/// lost either way; only a cause that will repeat demotes the host.
fn learn(host: DomainName, cause: Option<Demotion>, error: String) -> (r: Result<
    Handling,
    SessionError,
>)
    ensures
        match cause {
            Some(cause) => r matches Ok(Handling::Demoted { host: h, cause: c }) && h == host && c
                == cause,
            None => r matches Err(SessionError::ClientHandshake(e)) && e@ == error@,
        },
{
    match cause {
        Some(cause) => Ok(Handling::Demoted { host, cause }),
        None => Err(SessionError::ClientHandshake(error)),
    }
}

/// What an exchange with this many failed rewrites demotes the host for.
fn exhausted(failures: u64) -> (r: Option<Demotion>)
    ensures
        r == (if failures > 0 {
            Some(Demotion::RewriteExhausted)
        } else {
            None
        }),
{
    if failures > 0 {
        Some(Demotion::RewriteExhausted)
    } else {
        None
    }
}

/// Where an intercepted session stands.
#[derive(Clone, Copy, Debug, PartialEq, Eq, Structural)]
pub enum Phase {
    /// The proxy is asked for the host.
    Dialling,
    /// The origin is asked which wire it speaks, before the client sees a
    /// certificate.
    Originating,
    /// The client is shown a certificate.
    Terminating,
    /// Requests and responses cross.
    Exchanging,
    Over,
}

/// What a session asks for next.
#[derive(Debug, PartialEq, Eq)]
pub enum Action {
    Dial(Target),
    /// A handshake with the origin that offers this list.
    Originate(Vec<u8>),
    /// A handshake with the client on this wire alone.
    Terminate(Wire),
    Exchange { wire: Wire, rewrites: bool },
    /// The client's bytes go to the address it asked for.
    Splice(SpliceReason),
    Finish(Result<Handling, SessionError>),
}

/// The wire that an origin's selection stands for.
pub open spec fn origin_wire(selected: Option<Seq<u8>>) -> Wire {
    match selected {
        Some(name) => match mitm::wire_of(name) {
            Some(wire) => wire,
            None => Wire::Http1,
        },
        None => Wire::Http1,
    }
}

/// How a step of a session ended.
pub enum Outcome {
    Dialled(bool),
    /// The protocol that the origin selected, or that it failed.
    Originated(Result<Option<Seq<u8>>, ()>),
    Terminated(bool),
    Exchanged,
}

/// An action, as far as both legs see it.
pub enum Move {
    Dial,
    Originate,
    Terminate(Wire),
    Exchange(Wire),
    Splice,
    Finish,
}

pub open spec fn move_of(a: Action) -> Move {
    match a {
        Action::Dial(_) => Move::Dial,
        Action::Originate(_) => Move::Originate,
        Action::Terminate(wire) => Move::Terminate(wire),
        Action::Exchange { wire, rewrites: _ } => Move::Exchange(wire),
        Action::Splice(_) => Move::Splice,
        Action::Finish(_) => Move::Finish,
    }
}

/// Where a session goes from a phase, on which wire, and by which move.
pub open spec fn moved(tls: bool, phase: Phase, wire: Wire, outcome: Outcome) -> (Phase, Wire, Move) {
    match (phase, outcome) {
        (Phase::Dialling, Outcome::Dialled(true)) => if tls {
            (Phase::Originating, wire, Move::Originate)
        } else {
            (Phase::Exchanging, wire, Move::Exchange(wire))
        },
        (Phase::Originating, Outcome::Originated(Ok(selected))) => (
            Phase::Terminating,
            origin_wire(selected),
            Move::Terminate(origin_wire(selected)),
        ),
        (Phase::Originating, Outcome::Originated(Err(_))) => (Phase::Over, wire, Move::Splice),
        (Phase::Terminating, Outcome::Terminated(true)) => (
            Phase::Exchanging,
            wire,
            Move::Exchange(wire),
        ),
        _ => (Phase::Over, wire, Move::Finish),
    }
}

/// A session from its first dial on.
pub struct Run {
    pub phase: Phase,
    pub wire: Wire,
    pub moves: Seq<Move>,
}

/// The session after these outcomes.
pub open spec fn run(tls: bool, outcomes: Seq<Outcome>) -> Run
    decreases outcomes.len(),
{
    if outcomes.len() == 0 {
        Run { phase: Phase::Dialling, wire: Wire::Http1, moves: seq![] }
    } else {
        let before = run(tls, outcomes.drop_last());
        let (phase, wire, step) = moved(tls, before.phase, before.wire, outcomes.last());
        Run { phase, wire, moves: before.moves.push(step) }
    }
}

/// Whether a move shows the client something of the interception.
pub open spec fn is_shown(m: Move) -> bool {
    m is Terminate || m is Exchange
}

/// The wire of a move that has one.
pub open spec fn wire_of_move(m: Move) -> Option<Wire> {
    match m {
        Move::Terminate(wire) => Some(wire),
        Move::Exchange(wire) => Some(wire),
        _ => None,
    }
}

proof fn lemma_run(tls: bool, outcomes: Seq<Outcome>)
    ensures
        ({
            let r = run(tls, outcomes);
            &&& r.moves.len() == outcomes.len()
            &&& forall|i: int|
                0 <= i < r.moves.len() && is_shown(#[trigger] r.moves[i]) ==> wire_of_move(
                    r.moves[i],
                ) == Some(r.wire) && r.phase != Phase::Dialling && r.phase != Phase::Originating
        }),
    decreases outcomes.len(),
{
    if outcomes.len() > 0 {
        lemma_run(tls, outcomes.drop_last());
        let before = run(tls, outcomes.drop_last());
        let r = run(tls, outcomes);
        assert forall|i: int|
            0 <= i < r.moves.len() && is_shown(#[trigger] r.moves[i]) implies wire_of_move(
            r.moves[i],
        ) == Some(r.wire) && r.phase != Phase::Dialling && r.phase != Phase::Originating by {
            if i < before.moves.len() {
                assert(r.moves[i] == before.moves[i]);
            }
        }
    }
}

/// No session bridges versions: the wire on which the client is met and the
/// wire of the exchange are one, whatever the origin selected.
pub proof fn a_session_speaks_one_wire(tls: bool, outcomes: Seq<Outcome>, i: int, j: int)
    requires
        0 <= i < run(tls, outcomes).moves.len(),
        0 <= j < run(tls, outcomes).moves.len(),
        is_shown(run(tls, outcomes).moves[i]),
        is_shown(run(tls, outcomes).moves[j]),
    ensures
        wire_of_move(run(tls, outcomes).moves[i]) == wire_of_move(run(tls, outcomes).moves[j]),
{
    lemma_run(tls, outcomes);
}

/// A client that was shown a certificate is never spliced.
pub proof fn a_shown_certificate_is_never_taken_back(
    tls: bool,
    outcomes: Seq<Outcome>,
    i: int,
    j: int,
)
    requires
        0 <= i < j < run(tls, outcomes).moves.len(),
        run(tls, outcomes).moves[i] is Terminate,
    ensures
        !(run(tls, outcomes).moves[j] is Splice),
    decreases outcomes.len(),
{
    lemma_run(tls, outcomes);
    let rest = outcomes.drop_last();
    lemma_run(tls, rest);
    let before = run(tls, rest);
    assert(before.moves[i] == run(tls, outcomes).moves[i]);
    if j < before.moves.len() {
        assert(before.moves[j] == run(tls, outcomes).moves[j]);
        a_shown_certificate_is_never_taken_back(tls, rest, i, j);
    } else {
        assert(is_shown(before.moves[i]));
    }
}

/// A session with a host that is intercepted.
#[derive(Debug, PartialEq, Eq)]
pub struct Session {
    pub host: DomainName,
    pub approach: Approach,
    pub tier: InterceptedTier,
    pub wire: Wire,
    pub phase: Phase,
}

impl Session {
    /// Begins a session with a candidate of this standing; the first action is
    /// to dial it by name.
    pub fn begin(
        host: DomainName,
        approach: Approach,
        standing: Result<InterceptedTier, Demotion>,
        port: u16,
    ) -> (r: Result<(Self, Action), SpliceReason>)
        ensures
            match standing {
                Err(cause) => r == Err::<(Self, Action), SpliceReason>(SpliceReason::Demoted(cause)),
                Ok(tier) => r matches Ok((session, action)) && session.host == host
                    && session.approach == approach && session.tier == tier && session.wire
                    == Wire::Http1 && session.phase == Phase::Dialling && (action matches Action::Dial(
                    Target::Domain { host: h, port: p },
                ) && h@ == host@ && p == port),
            },
    {
        match stand(standing) {
            Err(reason) => Err(reason),
            Ok(tier) => {
                let action = Action::Dial(Target::Domain { host: host.clone(), port });
                Ok((Session { host, approach, tier, wire: Wire::Http1, phase: Phase::Dialling }, action))
            },
        }
    }

    /// The proxy answered. Only TLS has handshakes to make before the exchange.
    pub fn dialled(&mut self, outcome: Result<(), String>) -> (r: Action)
        requires
            old(self).phase == Phase::Dialling,
        ensures
            (final(self).phase, final(self).wire, move_of(r)) == moved(
                old(self).approach is Tls,
                old(self).phase,
                old(self).wire,
                Outcome::Dialled(outcome is Ok),
            ),
            final(self).host == old(self).host,
            final(self).approach == old(self).approach,
            final(self).tier == old(self).tier,
            final(self).wire == old(self).wire,
            match outcome {
                Err(error) => final(self).phase == Phase::Over && (r matches Action::Finish(
                    Err(SessionError::Upstream(e)),
                ) && e@ == error@),
                Ok(_) => match old(self).approach {
                    Approach::Tls { profile: _, alpn } => final(self).phase == Phase::Originating
                        && (r matches Action::Originate(list) && list@ == mirror::name_list(
                        mirror::identifiers(alpn@),
                    )),
                    Approach::Cleartext => final(self).phase == Phase::Exchanging && r
                        == (Action::Exchange {
                        wire: old(self).wire,
                        rewrites: old(self).tier == InterceptedTier::Rewrite,
                    }),
                },
            },
    {
        match outcome {
            Err(error) => {
                self.phase = Phase::Over;
                Action::Finish(Err(SessionError::Upstream(error)))
            },
            Ok(()) => match &self.approach {
                Approach::Tls { profile: _, alpn } => {
                    let list: Vec<u8> = alpn.encode();
                    self.phase = Phase::Originating;
                    Action::Originate(list)
                },
                Approach::Cleartext => {
                    self.phase = Phase::Exchanging;
                    Action::Exchange { wire: self.wire, rewrites: self.tier.rewrites() }
                },
            },
        }
    }

    /// The origin's handshake ended, with the protocol it selected or with a
    /// cause that will repeat, if its failure has one. A failure can still be
    /// spliced, since the client has seen nothing yet.
    pub fn originated(&mut self, outcome: Result<Option<Vec<u8>>, Option<Demotion>>) -> (r: (
        Action,
        Option<Demotion>,
    ))
        requires
            old(self).phase == Phase::Originating,
            old(self).approach is Tls,
        ensures
            (final(self).phase, final(self).wire, move_of(r.0)) == moved(
                true,
                old(self).phase,
                old(self).wire,
                Outcome::Originated(
                    match outcome {
                        Ok(Some(name)) => Ok(Some(name@)),
                        Ok(None) => Ok(None),
                        Err(_) => Err(()),
                    },
                ),
            ),
            final(self).host == old(self).host,
            final(self).approach == old(self).approach,
            final(self).tier == old(self).tier,
            match outcome {
                Err(cause) => r == (Action::Splice(SpliceReason::OriginHandshake), cause) && final(self).phase == Phase::Over,
                Ok(selected) => r == (Action::Terminate(final(self).wire), None::<Demotion>) && final(self).phase == Phase::Terminating,
            },
    {
        match outcome {
            Err(cause) => {
                self.phase = Phase::Over;
                (Action::Splice(SpliceReason::OriginHandshake), cause)
            },
            Ok(selected) => {
                let wire: Wire = match &selected {
                    Some(name) => session_wire(&self.approach, Some(name.as_slice())),
                    None => session_wire(&self.approach, None),
                };
                self.wire = wire;
                self.phase = Phase::Terminating;
                (Action::Terminate(wire), None)
            },
        }
    }

    /// The client's handshake ended. The certificate is already sent, so a
    /// failure is never spliced.
    pub fn terminated(&mut self, outcome: Result<(), (Option<Demotion>, String)>) -> (r: (
        Action,
        Option<Demotion>,
    ))
        requires
            old(self).phase == Phase::Terminating,
        ensures
            (final(self).phase, final(self).wire, move_of(r.0)) == moved(
                old(self).approach is Tls,
                old(self).phase,
                old(self).wire,
                Outcome::Terminated(outcome is Ok),
            ),
            final(self).host == old(self).host,
            final(self).approach == old(self).approach,
            final(self).tier == old(self).tier,
            final(self).wire == old(self).wire,
            match outcome {
                Ok(_) => final(self).phase == Phase::Exchanging && r == (
                    Action::Exchange {
                        wire: old(self).wire,
                        rewrites: old(self).tier == InterceptedTier::Rewrite,
                    },
                    None::<Demotion>,
                ),
                Err((cause, error)) => final(self).phase == Phase::Over && r.1 == cause
                    && match cause {
                    Some(cause) => r.0 matches Action::Finish(
                        Ok(Handling::Demoted { host, cause: c }),
                    ) && host@ == old(self).host@ && c == cause,
                    None => r.0 matches Action::Finish(Err(SessionError::ClientHandshake(e))) && e@
                        == error@,
                },
            },
    {
        match outcome {
            Ok(()) => {
                self.phase = Phase::Exchanging;
                (Action::Exchange { wire: self.wire, rewrites: self.tier.rewrites() }, None)
            },
            Err((cause, error)) => {
                self.phase = Phase::Over;
                (Action::Finish(learn(self.host.clone(), cause, error)), cause)
            },
        }
    }

    /// The exchange ended, having given up this many rewrites.
    pub fn exchanged(&mut self, failures: u64) -> (r: (Action, Option<Demotion>))
        requires
            old(self).phase == Phase::Exchanging,
        ensures
            (final(self).phase, final(self).wire, move_of(r.0)) == moved(
                old(self).approach is Tls,
                old(self).phase,
                old(self).wire,
                Outcome::Exchanged,
            ),
            final(self).host == old(self).host,
            final(self).approach == old(self).approach,
            final(self).tier == old(self).tier,
            final(self).wire == old(self).wire,
            final(self).phase == Phase::Over,
            r.0 matches Action::Finish(Ok(Handling::Intercepted { host, wire, tier })) && host@
                == old(self).host@ && wire == old(self).wire && tier == old(self).tier,
            r.1 == (if failures > 0 {
                Some(Demotion::RewriteExhausted)
            } else {
                None
            }),
    {
        self.phase = Phase::Over;
        let handling = Handling::Intercepted {
            host: self.host.clone(),
            wire: self.wire,
            tier: self.tier,
        };
        (Action::Finish(Ok(handling)), exhausted(failures))
    }
}

/// Where a connection that is spliced goes: to the address that the client
/// asked for, since resolving its host again could lead elsewhere.
pub fn splice_target(server: SocketAddr) -> (r: Target)
    ensures
        r == Target::Ip(server),
{
    Target::Ip(server)
}

/// A connection may be intercepted exactly if it names a host.
pub proof fn only_named_hosts_are_candidates(i: Intro)
    ensures
        unnamed(i) is None <==> intro_host(i) is Some,
{
}

/// What the first bytes of a connection are taken for. A record of a TLS handshake,
/// whole, is taken for the message in it, whatever follows. One that is not whole
/// is waited for. Nothing else is taken for TLS.
pub proof fn a_tls_record_is_read_as_written(bytes: &[u8], minor: u8, record: Seq<u8>, behind: Seq<u8>, r: Introduction)
    requires
        call_ensures(introduce, (bytes,), r),
    ensures
        record.len() <= 65535 && bytes@ == seq![0x16u8, 0x03, minor] + reader::behind_two(record) + behind ==> r
            is Tls && r->Tls_0@ == mirror::identity_in(record),
        bytes@.len() < 3 ==> r is Incomplete,
        bytes@.len() >= 3 && bytes@[0] == 0x16 && bytes@[1] == 0x03 && (bytes@.len() < 5 || bytes@.len() < 5
            + bytes@[3] * 256 + bytes@[4]) ==> r is Incomplete,
        r is Tls ==> bytes@.len() >= 5 && bytes@[0] == 0x16 && bytes@[1] == 0x03,
        bytes@.len() >= 3 && !(bytes@[0] == 0x16 && bytes@[1] == 0x03) ==> (r is Plain <==> parsed_head(
            bytes@,
            64,
        ) is None),
{
    if record.len() <= 65535 && bytes@ == seq![0x16u8, 0x03, minor] + reader::behind_two(record) + behind {
        reader::a_field_is_read_as_written(record, behind);
        assert(bytes@.skip(3) =~= reader::behind_two(record) + behind);
    }
}

/// A client that names a host in its first message is heard: whatever its version,
/// its random, its session, its ciphers and its compressions are, a record with a
/// server name extension introduces it by that name.
pub proof fn a_named_client_is_introduced_by_its_name(
    bytes: &[u8],
    minor: u8,
    version: Seq<u8>,
    random: Seq<u8>,
    session: Seq<u8>,
    ciphers: Seq<u8>,
    compressions: Seq<u8>,
    exts: Seq<(u16, Seq<u8>)>,
    host: Seq<char>,
    r: Introduction,
)
    requires
        call_ensures(introduce, (bytes,), r),
        version.len() == 2,
        random.len() == 32,
        session.len() <= 255,
        compressions.len() <= 255,
        forall|i: int| 0 <= i < exts.len() ==> (#[trigger] exts[i]).1.len() <= 65535,
        mirror::last_of(exts, 0) == Some(mirror::written_server_name(vstd::utf8::encode_utf8(host))),
        1 <= host.len() <= 255,
        forall|i: int| 0 <= i < host.len() ==> '!' <= #[trigger] host[i] <= '~',
        ({
            let hello = mirror::written_hello(
                version,
                random,
                session,
                ciphers,
                compressions,
                mirror::written_extensions(exts),
            );
            let record = seq![1u8] + reader::behind_three(hello);
            &&& record.len() <= 65535
            &&& bytes@ == seq![0x16u8, 0x03, minor] + reader::behind_two(record)
        }),
    ensures
        r matches Introduction::Tls(hello) && (hello.host matches Some(named) && named@ == host),
{
    let list = mirror::written_extensions(exts);
    let hello = mirror::written_hello(version, random, session, ciphers, compressions, list);
    let record = seq![1u8] + reader::behind_three(hello);
    assert(hello.len() >= ciphers.len() && hello.len() >= list.len());
    a_tls_record_is_read_as_written(bytes, minor, record, seq![], r);
    assert(bytes@ =~= seq![0x16u8, 0x03, minor] + reader::behind_two(record) + seq![]);
    mirror::a_written_hello_is_read_in_full(
        version,
        random,
        session,
        ciphers,
        compressions,
        exts,
        seq![],
        host,
        seq![],
        seq![],
    );
    assert(record + seq![] =~= record);
}

/// Whether a field is named `host`, in whatever case.
pub open spec fn is_host_field(name: Seq<u8>) -> bool {
    &&& name.len() == 4
    &&& name[0] == 0x68 || name[0] == 0x48
    &&& name[1] == 0x6f || name[1] == 0x4f
    &&& name[2] == 0x73 || name[2] == 0x53
    &&& name[3] == 0x74 || name[3] == 0x54
}

/// A request names its host by the first field of that name, in whatever case its
/// name is written; without one it names none.
pub proof fn the_first_host_field_counts(block: Seq<(Seq<u8>, Seq<u8>)>, n: int)
    ensures
        0 <= n < block.len() && is_host_field(block[n].0) && (forall|i: int|
            0 <= i < n ==> !is_host_field((#[trigger] block[i]).0)) ==> host_value(block) == Some(block[n].1),
        (forall|i: int| 0 <= i < block.len() ==> !is_host_field((#[trigger] block[i]).0)) ==> host_value(block) is None
            && host_of(block) is None,
    decreases block.len(),
{
    if block.len() > 0 {
        let rest = block.skip(1);
        assert forall|i: int| 0 <= i < rest.len() implies rest[i] == #[trigger] block[i + 1] by {}
        lemma_host_name(block[0].0);
        if forall|i: int| 0 <= i < block.len() ==> !is_host_field((#[trigger] block[i]).0) {
            assert forall|i: int| 0 <= i < rest.len() implies !is_host_field((#[trigger] rest[i]).0) by {
                assert(rest[i] == block[i + 1]);
            }
        }
        if 0 <= n < block.len() && is_host_field(block[n].0) && (forall|i: int|
            0 <= i < n ==> !is_host_field((#[trigger] block[i]).0)) {
            if n > 0 {
                assert(!is_host_field(block[0].0));
                assert forall|i: int| 0 <= i < n - 1 implies !is_host_field((#[trigger] rest[i]).0) by {
                    assert(rest[i] == block[i + 1]);
                }
                assert(rest[n - 1] == block[n]);
            }
        }
        the_first_host_field_counts(rest, n - 1);
    }
}

proof fn lemma_host_name(name: Seq<u8>)
    ensures
        (text::lowered(name) == text::lowered(fields::ascii("host"@))) == is_host_field(name),
{
    reveal_strlit("host");
    assert(vstd::utf8::is_ascii_chars("host"@));
    vstd::utf8::is_ascii_chars_encode_utf8("host"@);
    let host = fields::ascii("host"@);
    assert(host =~= seq![0x68u8, 0x6f, 0x73, 0x74]);
    let a = text::lowered(name);
    let b = text::lowered(host);
    assert(b =~= host);
    if a == b {
        assert(a.len() == name.len());
        assert(a[0] == b[0] && a[1] == b[1] && a[2] == b[2] && a[3] == b[3]);
    }
    if is_host_field(name) {
        assert(a =~= b);
    }
}

/// Only a connection that names a host on the list may be intercepted, and then it
/// is, with that host and with what its client offered; every other is spliced, and
/// says why: nothing named, nothing understood, not enough seen, or not listed.
pub proof fn a_connection_is_intercepted_exactly_if_listed(
    introduction: Introduction,
    policy: &InterceptPolicy,
    r: Meeting,
)
    requires
        policy.wf(),
        call_ensures(meet, (introduction, policy), r),
    ensures
        introduction is Incomplete ==> r == Meeting::Splice(SpliceReason::Undecided),
        introduction is Plain ==> r == Meeting::Splice(SpliceReason::NotTls),
        introduction matches Introduction::Tls(hello) ==> match hello.host {
            None => r == Meeting::Splice(SpliceReason::Unnamed),
            Some(named) => if policy@.contains(name::lowered(named@)) {
                r matches Meeting::Candidate { host, approach } && host@ == named@ && approach == (Approach::Tls {
                    profile: hello.profile,
                    alpn: hello.alpn,
                })
            } else {
                r == Meeting::Splice(SpliceReason::NotAllowlisted)
            },
        },
        introduction matches Introduction::Http { host: asked } ==> match asked {
            None => r == Meeting::Splice(SpliceReason::Unnamed),
            Some(named) => if policy@.contains(name::lowered(named@)) {
                r matches Meeting::Candidate { host, approach } && host@ == named@ && approach
                    == Approach::Cleartext
            } else {
                r == Meeting::Splice(SpliceReason::NotAllowlisted)
            },
        },
{
}

/// A session runs one way: dialled, it asks the origin first where the client speaks
/// TLS, and exchanges at once where it does not. What the origin selects is what
/// the client is met on. Only an origin that fails is spliced; only a met client is
/// exchanged with; and everything else ends the session.
pub proof fn a_session_asks_the_origin_before_the_client(
    s: &mut Session,
    dialled: Result<(), String>,
    action: Action,
)
    requires
        old(s).phase == Phase::Dialling,
        call_ensures(Session::dialled, (s, dialled), action),
    ensures
        dialled is Ok && old(s).approach is Tls ==> action is Originate && final(s).phase == Phase::Originating,
        dialled is Ok && old(s).approach is Cleartext ==> action == (Action::Exchange {
            wire: old(s).wire,
            rewrites: old(s).tier == InterceptedTier::Rewrite,
        }) && final(s).phase == Phase::Exchanging,
        dialled is Err ==> action is Finish && action->Finish_0 is Err && action->Finish_0->Err_0 is Upstream,
        final(s).host == old(s).host,
        final(s).tier == old(s).tier,
        final(s).wire == old(s).wire,
{
}

/// The wire of the session is what the origin selected: `h2` for that very name,
/// and HTTP/1.1 for its name, for any other and for none. An origin that fails
/// leaves the client unmet, so the connection is spliced, and what will repeat is
/// handed on.
pub proof fn the_origin_selects_the_wire(
    s: &mut Session,
    outcome: Result<Option<Vec<u8>>, Option<Demotion>>,
    r: (Action, Option<Demotion>),
)
    requires
        old(s).phase == Phase::Originating,
        old(s).approach is Tls,
        call_ensures(Session::originated, (s, outcome), r),
    ensures
        outcome matches Ok(selected) ==> {
            let h2 = selected is Some && selected->0@ == seq![0x68u8, 0x32];
            &&& r.0 == Action::Terminate(
                if h2 {
                    Wire::Http2
                } else {
                    Wire::Http1
                },
            )
            &&& r.1 is None
            &&& final(s).wire == (if h2 {
                Wire::Http2
            } else {
                Wire::Http1
            })
            &&& final(s).phase == Phase::Terminating
        },
        outcome matches Err(cause) ==> r.0 == Action::Splice(SpliceReason::OriginHandshake) && r.1 == cause
            && final(s).phase == Phase::Over,
{
    mitm::two_protocols_are_terminated();
}

/// A client that refuses the certificate is never spliced, and demotes its host
/// exactly where the cause will repeat; a client that takes it is exchanged with, on
/// the wire it was met on.
pub proof fn a_refused_certificate_ends_the_session(
    s: &mut Session,
    outcome: Result<(), (Option<Demotion>, String)>,
    r: (Action, Option<Demotion>),
)
    requires
        old(s).phase == Phase::Terminating,
        call_ensures(Session::terminated, (s, outcome), r),
    ensures
        outcome is Ok ==> r.0 == (Action::Exchange {
            wire: old(s).wire,
            rewrites: old(s).tier == InterceptedTier::Rewrite,
        }) && r.1 is None && final(s).phase == Phase::Exchanging,
        outcome matches Err((cause, _)) ==> final(s).phase == Phase::Over && r.0 is Finish && r.1 == cause && match cause {
            Some(c) => r.0->Finish_0 matches Ok(Handling::Demoted { host, cause }) && host@ == old(s).host@ && cause
                == c,
            None => r.0->Finish_0 is Err && r.0->Finish_0->Err_0 is ClientHandshake,
        },
{
}

/// An exchange that is over was intercepted, on the session's wire and tier, and
/// demotes its host exactly if a rewrite was given up.
pub proof fn a_given_up_rewrite_demotes(s: &mut Session, failures: u64, r: (Action, Option<Demotion>))
    requires
        old(s).phase == Phase::Exchanging,
        call_ensures(Session::exchanged, (s, failures), r),
    ensures
        failures > 0 ==> r.1 == Some(Demotion::RewriteExhausted),
        failures == 0 ==> r.1 is None,
        r.0 matches Action::Finish(Ok(Handling::Intercepted { host, wire, tier })) && host@ == old(s).host@ && wire
            == old(s).wire && tier == old(s).tier,
        final(s).phase == Phase::Over,
{
}

/// A connection is read on exactly while it says nothing yet and less than the longest
/// record of 16389 bytes has come; then it is judged by what it said.
pub proof fn a_connection_is_read_on_up_to_one_record(bytes: &[u8], r: Peek)
    requires
        call_ensures(peek_step, (bytes,), r),
    ensures
        bytes@.len() >= 16389 ==> r is Judged,
        bytes@.len() < 3 ==> r is More,
        bytes@.len() < 16389 && introduced(bytes@) is Incomplete ==> r is More,
        !(introduced(bytes@) is Incomplete) ==> r is Judged && intro_of(r->Judged_0) == introduced(bytes@),
{
}

/// A session with a host that is not demoted dials it by its name, at the port that was
/// asked for; a demoted host is spliced for what demoted it.
pub proof fn a_session_dials_its_host_by_name(
    host: DomainName,
    approach: Approach,
    standing: Result<InterceptedTier, Demotion>,
    port: u16,
    r: Result<(Session, Action), SpliceReason>,
)
    requires
        call_ensures(Session::begin, (host, approach, standing, port), r),
    ensures
        standing matches Err(cause) ==> r is Err && r->Err_0 == SpliceReason::Demoted(cause),
        standing matches Ok(tier) ==> r is Ok && {
            let (session, action) = r->Ok_0;
            &&& session.host == host && session.approach == approach && session.tier == tier
            &&& session.phase == Phase::Dialling
            &&& action matches Action::Dial(Target::Domain { host: named, port: p }) && named@ == host@ && p == port
        },
{
}

} // verus!
