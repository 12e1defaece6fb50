//! Hysteria2: the frames that open a stream, and how a dial goes.
//!
//! One authenticated QUIC connection carries every flow as a stream of its
//! own. A stream starts with a request that names its target as text, and the
//! server's answer comes before the first byte of payload.

use vstd::prelude::*;
use vstd::slice::slice_subrange;

#[allow(unused_imports)]
use crate::fields;
use crate::fields::{bytes_of, field, Field};
use crate::plan::{DatagramFidelity, NatBehavior, PathProperties};
#[allow(unused_imports)]
use crate::target;
use crate::target::{SocketAddr, Target};
use crate::text::utf8_text;
#[allow(unused_imports)]
use crate::varint;

verus! {

/// The status that accepts an authentication.
pub const STATUS_AUTH_OK: u16 = 233;

/// The frame type that opens a stream.
pub const FRAME_TCP_REQUEST: u64 = 0x401;

/// The longest address that is sent, in bytes.
pub const MAX_ADDRESS_LEN: u64 = 2048;

/// The longest message that is taken from a server.
pub const MAX_MESSAGE_LEN: u64 = 2048;

/// The longest padding that is taken from a server.
pub const MAX_PADDING_LEN: u64 = 4096;

/// The least padding of an authentication, and what is too much.
pub const AUTH_PADDING: (usize, usize) = (256, 2048);

/// The least padding of a request, and what is too much.
pub const REQUEST_PADDING: (usize, usize) = (64, 512);

/// How many letters and digits padding is made of.
pub const ALPHABET_LEN: u8 = 62;

/// Why a proxy did not open a stream.
#[derive(Clone, Debug, PartialEq, Eq)]
pub enum ProxyError {
    /// A frame that breaks the protocol.
    Header,
    /// No random bytes could be had.
    Crypto,
    /// A target whose text is too long.
    Address,
    /// The server did not accept the password.
    AuthFailed,
    /// The server refused, for the reason it gives.
    Denied(String),
}

/// A decoded value and how many bytes it took, or not enough bytes to tell.
#[derive(Clone, Debug, PartialEq, Eq)]
pub enum Decoded<T> {
    Incomplete,
    Complete { value: T, consumed: usize },
}

/// What the server answered when asked to open a stream.
#[derive(Clone, Debug, PartialEq, Eq)]
pub struct TcpResponse {
    pub ok: bool,
    /// The server's explanation when it refused.
    pub message: String,
}

/// Where and how a server is reached.
pub struct Hysteria2Config {
    pub server: SocketAddr,
    /// The name that the server's certificate is checked against.
    pub server_name: String,
    pub password: String,
    /// How the server's own translation maps endpoints, as measured.
    pub nat_behavior: NatBehavior,
}

/// A target's text, in bytes.
pub open spec fn address_bytes(t: Target) -> Seq<u8> {
    fields::ascii(target::target_text(t))
}

/// The frame that opens a stream: its type, then the address and the padding,
/// each behind its length.
pub open spec fn request_frame(t: Target, padding: Seq<u8>) -> Seq<u8> {
    varint::encoding(FRAME_TCP_REQUEST) + varint::encoding(address_bytes(t).len() as u64)
        + address_bytes(t) + varint::encoding(padding.len() as u64) + padding
}

proof fn lemma_utf8_bound(s: Seq<char>)
    ensures
        vstd::utf8::encode_utf8(s).len() <= 4 * s.len(),
    decreases s.len(),
{
    if s.len() > 0 {
        lemma_utf8_bound(s.drop_first());
    }
}

/// Appends the frame that opens a stream to `target`.
pub fn encode_tcp_request(target: &Target, padding: &[u8], out: &mut Vec<u8>)
    requires
        padding@.len() < varint::LIMIT,
    ensures
        final(out)@ == old(out)@ + request_frame(*target, padding@),
{
    let text: String = target.text();
    let address: &[u8] = text.as_str().as_bytes();
    proof {
        lemma_utf8_bound(text@);
    }
    varint::put(FRAME_TCP_REQUEST, out);
    varint::put(address.len() as u64, out);
    out.extend_from_slice(address);
    varint::put(padding.len() as u64, out);
    out.extend_from_slice(padding);
    assert(out@ =~= old(out)@ + request_frame(*target, padding@));
}

/// The frame that opens a stream, for a target whose text is short enough.
pub fn open_request(target: &Target, padding: &[u8]) -> (r: Result<Vec<u8>, ProxyError>)
    requires
        padding@.len() < varint::LIMIT,
    ensures
        r is Ok == (address_bytes(*target).len() <= MAX_ADDRESS_LEN),
        r matches Ok(frame) ==> frame@ == request_frame(*target, padding@),
        r matches Err(e) ==> e is Address,
{
    let text: String = target.text();
    if text.as_str().as_bytes().len() as u64 > MAX_ADDRESS_LEN {
        return Err(ProxyError::Address);
    }
    let mut frame: Vec<u8> = Vec::new();
    encode_tcp_request(target, padding, &mut frame);
    assert(frame@ =~= request_frame(*target, padding@));
    Ok(frame)
}

/// What the bytes of an answer say.
pub enum Answer {
    /// The frame is not whole yet.
    Incomplete,
    /// The frame breaks the protocol.
    Malformed,
    /// A whole frame, and where it ends.
    Whole { ok: bool, message: Seq<char>, end: int },
}

/// Reads `status || length || message || length || padding`.
pub open spec fn answer_in(s: Seq<u8>) -> Answer {
    if s.len() == 0 {
        Answer::Incomplete
    } else {
        match varint::reading(s.skip(1)) {
            None => Answer::Incomplete,
            Some((m, a)) => if m > MAX_MESSAGE_LEN {
                Answer::Malformed
            } else if s.len() < 1 + a + m {
                Answer::Incomplete
            } else {
                match varint::reading(s.skip(1 + a + m)) {
                    None => Answer::Incomplete,
                    Some((p, b)) => if p > MAX_PADDING_LEN {
                        Answer::Malformed
                    } else if s.len() < 1 + a + m + b + p {
                        Answer::Incomplete
                    } else if !vstd::utf8::valid_utf8(s.subrange(1 + a, 1 + a + m)) {
                        Answer::Malformed
                    } else {
                        Answer::Whole {
                            ok: s[0] == 0,
                            message: vstd::utf8::decode_utf8(s.subrange(1 + a, 1 + a + m)),
                            end: 1 + a + m + b + p,
                        }
                    },
                }
            },
        }
    }
}

/// Reads the server's answer off the front of `bytes`.
pub fn decode_tcp_response(bytes: &[u8]) -> (r: Result<Decoded<TcpResponse>, ProxyError>)
    ensures
        match answer_in(bytes@) {
            Answer::Incomplete => r is Ok && r->Ok_0 is Incomplete,
            Answer::Malformed => r is Err && r->Err_0 is Header,
            Answer::Whole { ok, message, end } => r matches Ok(Decoded::Complete { value, consumed })
                && value.ok == ok && value.message@ == message && consumed == end,
        },
{
    let n: usize = bytes.len();
    if n == 0 {
        return Ok(Decoded::Incomplete);
    }
    let status: u8 = bytes[0];
    let rest: &[u8] = slice_subrange(bytes, 1, n);
    assert(rest@ =~= bytes@.skip(1));
    let (message_len, rest) = match varint::get(rest) {
        None => {
            return Ok(Decoded::Incomplete);
        },
        Some((v, after)) => (v, after),
    };
    if message_len > MAX_MESSAGE_LEN {
        return Err(ProxyError::Header);
    }
    let from: usize = n - rest.len();
    assert(rest@ =~= bytes@.skip(from as int));
    if (rest.len() as u64) < message_len {
        return Ok(Decoded::Incomplete);
    }
    let m: usize = message_len as usize;
    let message: &[u8] = slice_subrange(rest, 0, m);
    let rest: &[u8] = slice_subrange(rest, m, rest.len());
    proof {
        assert(message@ =~= bytes@.subrange(from as int, from + m));
        assert(rest@ =~= bytes@.skip(from + m));
    }
    let (padding_len, rest) = match varint::get(rest) {
        None => {
            return Ok(Decoded::Incomplete);
        },
        Some((v, after)) => (v, after),
    };
    if padding_len > MAX_PADDING_LEN {
        return Err(ProxyError::Header);
    }
    if (rest.len() as u64) < padding_len {
        return Ok(Decoded::Incomplete);
    }
    match utf8_text(message) {
        Some(text) => Ok(
            Decoded::Complete {
                value: TcpResponse { ok: status == 0, message: text.to_owned() },
                consumed: n - rest.len() + padding_len as usize,
            },
        ),
        None => Err(ProxyError::Header),
    }
}

/// No proper prefix of a whole answer decides, and what follows it changes
/// nothing: the answer stays whole and ends where it did.
pub proof fn an_answer_is_decided_by_its_whole_frame(s: Seq<u8>, cut: int)
    requires
        0 <= cut <= s.len(),
        answer_in(s) is Whole,
    ensures
        cut < answer_in(s)->end ==> answer_in(s.take(cut)) is Incomplete,
        cut >= answer_in(s)->end ==> answer_in(s.take(cut)) == answer_in(s),
        0 < answer_in(s)->end <= s.len(),
{
    let t = s.take(cut);
    let (m, a) = varint::reading(s.skip(1))->0;
    let (p, b) = varint::reading(s.skip(1 + a + m))->0;
    if cut >= 1 {
        assert(t.skip(1) =~= s.skip(1).take(cut - 1));
        varint::a_prefix_reads_as_the_whole_or_not_at_all(s.skip(1), cut - 1);
        if cut >= 1 + a + m {
            assert(t.skip(1 + a + m) =~= s.skip(1 + a + m).take(cut - (1 + a + m)));
            varint::a_prefix_reads_as_the_whole_or_not_at_all(
                s.skip(1 + a + m),
                cut - (1 + a + m),
            );
            assert(t.subrange(1 + a, 1 + a + m) =~= s.subrange(1 + a, 1 + a + m));
        }
    }
    varint::a_prefix_reads_as_the_whole_or_not_at_all(s.skip(1), 0);
    varint::a_prefix_reads_as_the_whole_or_not_at_all(s.skip(1 + a + m), 0);
}

/// The frame of an answer.
pub open spec fn answer_frame(status: u8, message: Seq<u8>, padding: Seq<u8>) -> Seq<u8> {
    seq![status] + varint::encoding(message.len() as u64) + message + varint::encoding(
        padding.len() as u64,
    ) + padding
}

/// An answer within the ceilings is read as it was written, and exactly a zero
/// status accepts.
pub proof fn an_answer_reads_as_written(
    status: u8,
    message: Seq<u8>,
    padding: Seq<u8>,
    rest: Seq<u8>,
)
    requires
        message.len() <= MAX_MESSAGE_LEN,
        padding.len() <= MAX_PADDING_LEN,
        vstd::utf8::valid_utf8(message),
    ensures
        answer_in(answer_frame(status, message, padding) + rest) == (Answer::Whole {
            ok: status == 0,
            message: vstd::utf8::decode_utf8(message),
            end: answer_frame(status, message, padding).len() as int,
        }),
{
    let a = varint::encoding(message.len() as u64);
    let b = varint::encoding(padding.len() as u64);
    let s = answer_frame(status, message, padding) + rest;
    varint::reading_undoes_putting(message.len() as u64, message + b + padding + rest);
    varint::reading_undoes_putting(padding.len() as u64, padding + rest);
    assert(s.skip(1) =~= a + (message + b + padding + rest));
    assert(s.skip(1int + a.len() + message.len()) =~= b + (padding + rest));
    assert(s.subrange(1int + a.len(), 1int + a.len() + message.len()) =~= message);
    assert(s[0] == status);
}

/// One letter or digit, by its place in the alphabet.
pub open spec fn symbol(i: int) -> u8 {
    if i < 26 {
        (97 + i) as u8
    } else if i < 52 {
        (65 + i - 26) as u8
    } else {
        (48 + i - 52) as u8
    }
}

/// Whether a byte is an ASCII letter or digit.
pub open spec fn is_symbol(b: u8) -> bool {
    97 <= b <= 122 || 65 <= b <= 90 || 48 <= b <= 57
}

/// `ring::rand::SystemRandom::fill`: `n` bytes from the system's generator, or
/// nothing where it fails. What the bytes are is left to chance.
#[verifier::external_body]
fn random_bytes(n: usize) -> (r: Option<Vec<u8>>)
    ensures
        r is Some ==> r->0@.len() == n,
{
    let mut bytes = vec![0u8; n];
    let random = ring::rand::SystemRandom::new();
    match ring::rand::SecureRandom::fill(&random, &mut bytes) {
        Ok(()) => Some(bytes),
        Err(_) => None,
    }
}

/// How much padding two random bytes stand for.
pub fn padding_len(choice: &[u8], least: usize, over: usize) -> (n: usize)
    requires
        choice@.len() == 2,
        least < over,
    ensures
        n == least + (choice@[0] * 256 + choice@[1]) % (over - least),
{
    let drawn: usize = choice[0] as usize * 256 + choice[1] as usize;
    least + drawn % (over - least)
}

/// Random bytes as letters and digits.
pub fn to_padding(random: &[u8]) -> (r: Vec<u8>)
    ensures
        r@ == Seq::new(random@.len(), |i: int| symbol((random@[i] % ALPHABET_LEN) as int)),
{
    let mut r: Vec<u8> = Vec::new();
    let n: usize = random.len();
    let mut i: usize = 0;
    while i < n
        invariant
            i <= n,
            n == random@.len(),
            r@.len() == i,
            forall|j: int|
                0 <= j < i ==> r@[j] == symbol((#[trigger] random@[j] % ALPHABET_LEN) as int),
        decreases n - i,
    {
        let at: u8 = random[i] % ALPHABET_LEN;
        let b: u8 = if at < 26 {
            97 + at
        } else if at < 52 {
            65 + (at - 26)
        } else {
            48 + (at - 52)
        };
        assert(symbol((random@[i as int] % ALPHABET_LEN) as int) == b);
        r.push(b);
        i += 1;
    }
    assert(r@ =~= Seq::new(random@.len(), |i: int| symbol((random@[i] % ALPHABET_LEN) as int)));
    r
}

/// Random padding: at least `range.0` and less than `range.1` letters and
/// digits. The only failure is that no random bytes can be had.
pub fn padding(range: (usize, usize)) -> (r: Result<Vec<u8>, ProxyError>)
    requires
        range.0 < range.1,
    ensures
        r matches Ok(bytes) ==> range.0 <= bytes@.len() < range.1 && forall|i: int|
            0 <= i < bytes@.len() ==> is_symbol(#[trigger] bytes@[i]),
        r matches Err(e) ==> e is Crypto,
{
    match random_bytes(2) {
        Some(choice) => {
            let n: usize = padding_len(choice.as_slice(), range.0, range.1);
            match random_bytes(n) {
                Some(random) => Ok(to_padding(random.as_slice())),
                None => Err(ProxyError::Crypto),
            }
        },
        None => Err(ProxyError::Crypto),
    }
}

/// The request that authenticates a connection.
pub open spec fn auth_block(password: Seq<char>, padding: Seq<u8>) -> Seq<(Seq<u8>, Seq<u8>)> {
    seq![
        (fields::ascii(":method"@), fields::ascii("POST"@)),
        (fields::ascii(":scheme"@), fields::ascii("https"@)),
        (fields::ascii(":authority"@), fields::ascii("hysteria"@)),
        (fields::ascii(":path"@), fields::ascii("/auth"@)),
        (fields::ascii("hysteria-auth"@), fields::ascii(password)),
        (fields::ascii("hysteria-cc-rx"@), fields::ascii("0"@)),
        (fields::ascii("hysteria-padding"@), padding),
    ]
}

pub fn auth_request(password: &str, padding: &[u8]) -> (r: Vec<Field>)
    ensures
        fields::block(r@) == auth_block(password@, padding@),
{
    let mut r: Vec<Field> = Vec::new();
    r.push(field(":method", "POST"));
    r.push(field(":scheme", "https"));
    r.push(field(":authority", "hysteria"));
    r.push(field(":path", "/auth"));
    r.push(field("hysteria-auth", password));
    r.push(field("hysteria-cc-rx", "0"));
    let name: Vec<u8> = bytes_of("hysteria-padding".as_bytes());
    r.push((name, bytes_of(padding)));
    assert(fields::block(r@) =~= auth_block(password@, padding@));
    r
}

/// The server accepted the password exactly if it answered with its sentinel.
pub fn auth_outcome(status: u16) -> (r: Result<(), ProxyError>)
    ensures
        r is Ok == (status == STATUS_AUTH_OK),
        r matches Err(e) ==> e is AuthFailed,
{
    if status == STATUS_AUTH_OK {
        Ok(())
    } else {
        Err(ProxyError::AuthFailed)
    }
}

/// Where a dial stands, given all that was read of the stream.
#[derive(Debug, PartialEq, Eq)]
pub enum Dial {
    /// Read on.
    More,
    /// The dial failed.
    Failed(ProxyError),
    /// The stream is open; the target's first bytes are these.
    Open(Vec<u8>),
}

pub fn dial_step(read: &[u8]) -> (r: Dial)
    ensures
        match answer_in(read@) {
            Answer::Incomplete => r is More,
            Answer::Malformed => r matches Dial::Failed(e) && e is Header,
            Answer::Whole { ok, message, end } => if ok {
                r matches Dial::Open(surplus) && surplus@ == read@.skip(end)
            } else {
                r matches Dial::Failed(ProxyError::Denied(m)) && m@ == message
            },
        },
{
    match decode_tcp_response(read) {
        Err(e) => Dial::Failed(e),
        Ok(Decoded::Incomplete) => Dial::More,
        Ok(Decoded::Complete { value, consumed }) => {
            if !value.ok {
                return Dial::Failed(ProxyError::Denied(value.message));
            }
            proof {
                an_answer_is_decided_by_its_whole_frame(read@, 0);
            }
            let surplus: &[u8] = slice_subrange(read, consumed, read.len());
            assert(surplus@ =~= read@.skip(consumed as int));
            Dial::Open(bytes_of(surplus))
        },
    }
}

/// A server as a stream egress.
pub struct Hysteria2Egress {
    pub config: Hysteria2Config,
}

impl Hysteria2Egress {
    pub fn new(config: Hysteria2Config) -> (r: Self)
        ensures
            r.config == config,
    {
        Hysteria2Egress { config }
    }

    /// What the egress offers: streams only, with no packet size of its own.
    pub fn capabilities(&self) -> (r: PathProperties)
        ensures
            r == (PathProperties {
                datagram_fidelity: DatagramFidelity::Absent,
                overhead_bytes: 0,
                max_datagram_size: None,
                preserves_ecn: false,
                nat_behavior: self.config.nat_behavior,
            }),
    {
        PathProperties {
            datagram_fidelity: DatagramFidelity::Absent,
            overhead_bytes: 0,
            max_datagram_size: None,
            preserves_ecn: false,
            nat_behavior: self.config.nat_behavior,
        }
    }

    /// The header in which a server says whether it carries datagrams.
    pub fn udp_header() -> (r: &'static str)
        ensures
            r@ == "hysteria-udp"@,
    {
        "hysteria-udp"
    }
}

/// A request to open a stream reads back: its type is 0x401, then stand the target's
/// text and the padding, each behind its length, and nothing else.
pub proof fn a_request_reads_as_written(target: Target, padding: Seq<u8>)
    requires
        padding.len() < 0x4000_0000_0000_0000,
        address_bytes(target).len() < 0x4000_0000_0000_0000,
    ensures
        ({
            let frame = request_frame(target, padding);
            let address = vstd::utf8::encode_utf8(target::target_text(target));
            &&& varint::reading(frame) == Some((0x401u64, 2int))
            &&& varint::reading(frame.skip(2)) matches Some((n, a)) && n == address.len() && frame.subrange(
                2 + a,
                2 + a + n,
            ) == address && (varint::reading(frame.skip(2 + a + n)) matches Some((m, b)) && m == padding.len()
                && frame.skip(2 + a + n + b) == padding)
        }),
{
    let frame = request_frame(target, padding);
    let address = address_bytes(target);
    let kind = varint::encoding(FRAME_TCP_REQUEST);
    let x = varint::encoding(address.len() as u64);
    let y = varint::encoding(padding.len() as u64);
    assert(kind.len() == 2);
    let tail = y + padding;
    let rest = x + (address + tail);
    assert(frame =~= kind + rest);
    varint::reading_undoes_putting(FRAME_TCP_REQUEST, rest);
    varint::reading_undoes_putting(address.len() as u64, address + tail);
    varint::reading_undoes_putting(padding.len() as u64, padding);
    assert(frame.skip(2) =~= rest);
    let a = x.len() as int;
    let n = address.len() as int;
    assert(frame.subrange(2 + a, 2 + a + n) =~= address);
    assert(frame.skip(2 + a + n) =~= tail);
    assert(frame.skip(2 + a + n + y.len()) =~= padding);
}

/// What a dial comes to, by what was read: an answer that is not whole is read on; a
/// whole one opens the stream exactly if its status is zero, with what stands behind
/// it as the target's first bytes, and is otherwise a refusal in the server's own
/// words. A message or a padding beyond 2048 or 4096 bytes breaks the protocol.
pub proof fn a_dial_goes_by_the_whole_answer(
    read: &[u8],
    status: u8,
    message: Seq<u8>,
    padding: Seq<u8>,
    behind: Seq<u8>,
    cut: int,
    r: Dial,
)
    requires
        call_ensures(dial_step, (read,), r),
        message.len() <= 2048,
        padding.len() <= 4096,
        vstd::utf8::valid_utf8(message),
        0 <= cut,
    ensures
        read@ == answer_frame(status, message, padding) + behind ==> {
            &&& status == 0 ==> (r matches Dial::Open(surplus) && surplus@ == behind)
            &&& status != 0 ==> (r matches Dial::Failed(ProxyError::Denied(m)) && m@ == vstd::utf8::decode_utf8(message))
        },
        cut < answer_frame(status, message, padding).len() && read@ == answer_frame(status, message, padding).take(cut)
            ==> r is More,
{
    let frame = answer_frame(status, message, padding);
    an_answer_reads_as_written(status, message, padding, behind);
    an_answer_reads_as_written(status, message, padding, seq![]);
    assert(frame + seq![] =~= frame);
    assert((frame + behind).skip(frame.len() as int) =~= behind);
    if cut < frame.len() {
        an_answer_is_decided_by_its_whole_frame(frame, cut);
    }
}

/// A message longer than 2048 bytes, or a padding longer than 4096, breaks the
/// protocol as soon as its length is read.
pub proof fn an_answer_beyond_the_ceilings_is_refused(status: u8, long: u64, message: Seq<u8>, rest: Seq<u8>)
    requires
        long < 0x4000_0000_0000_0000,
        message.len() <= 2048,
    ensures
        long > 2048 ==> answer_in(seq![status] + varint::encoding(long) + rest) is Malformed,
        long > 4096 ==> answer_in(
            seq![status] + varint::encoding(message.len() as u64) + message + varint::encoding(long) + rest,
        ) is Malformed,
{
    if long > 2048 {
        let s = seq![status] + varint::encoding(long) + rest;
        varint::reading_undoes_putting(long, rest);
        assert(s.skip(1) =~= varint::encoding(long) + rest);
    }
    if long > 4096 {
        lemma_long_padding(status, long, message, rest);
    }
}

#[verifier::spinoff_prover]
proof fn lemma_long_padding(status: u8, long: u64, message: Seq<u8>, rest: Seq<u8>)
    requires
        4096 < long < 0x4000_0000_0000_0000,
        message.len() <= 2048,
    ensures
        answer_in(
            seq![status] + varint::encoding(message.len() as u64) + message + varint::encoding(long) + rest,
        ) is Malformed,
{
    let n = message.len() as u64;
    let a = varint::encoding(n);
    let b = varint::encoding(long);
    let tail = b + rest;
    let t = seq![status] + a + message + b + rest;
    varint::reading_undoes_putting(n, message + tail);
    varint::reading_undoes_putting(long, rest);
    let w = a.len() as int;
    assert(t.skip(1) =~= a + (message + tail));
    assert(t.skip(1 + w + n) =~= tail);
    assert(varint::reading(t.skip(1)) == Some((n, w)));
    assert(varint::reading(t.skip(1 + w + n)) == Some((long, b.len() as int)));
    assert(t.len() >= 1 + w + n);
}

/// Only an address of at most 2048 bytes is asked for, and an authentication is
/// accepted by 233 and nothing else.
pub proof fn a_server_accepts_by_one_status(status: u16, r: Result<(), ProxyError>)
    requires
        call_ensures(auth_outcome, (status,), r),
    ensures
        r is Ok <==> status == 233,
        r is Err ==> r->Err_0 is AuthFailed,
{
}

/// Padding is letters and digits, each by its own number below 62: all of them occur,
/// and no two numbers give the same.
pub proof fn padding_is_letters_and_digits(random: &[u8], r: Vec<u8>, i: int, j: int)
    requires
        call_ensures(to_padding, (random,), r),
        0 <= i < random@.len(),
        0 <= j < random@.len(),
    ensures
        r@.len() == random@.len(),
        (97 <= r@[i] <= 122) || (65 <= r@[i] <= 90) || (48 <= r@[i] <= 57),
        r@[i] == r@[j] <==> random@[i] % 62 == random@[j] % 62,
{
}

/// How long padding is: from the least on and below what is too much, by the two random
/// bytes read most significant first.
pub proof fn padding_stays_within_its_range(choice: &[u8], least: usize, over: usize, n: usize)
    requires
        choice@.len() == 2,
        least < over,
        call_ensures(padding_len, (choice, least, over), n),
    ensures
        least <= n < over,
        choice@[0] * 256 + choice@[1] < over - least ==> n == least + choice@[0] * 256 + choice@[1],
{
    let v = choice@[0] * 256 + choice@[1];
    let m = over - least;
    assert(0 <= v % m < m) by (nonlinear_arith)
        requires
            m > 0,
            v >= 0,
    ;
    if v < m {
        assert(v % m == v) by (nonlinear_arith)
            requires
                0 <= v < m,
        ;
    }
}

/// A connection authenticates by a POST that carries the password and the padding, and asks
/// for no rate.
pub proof fn a_connection_authenticates_by_its_password(password: &str, padding: &[u8], r: Vec<Field>)
    requires
        call_ensures(auth_request, (password, padding), r),
    ensures
        r@.len() == 7,
        r@[0].0@ == fields::ascii(":method"@) && r@[0].1@ == fields::ascii("POST"@),
        r@[1].0@ == fields::ascii(":scheme"@) && r@[1].1@ == fields::ascii("https"@),
        r@[2].0@ == fields::ascii(":authority"@) && r@[2].1@ == fields::ascii("hysteria"@),
        r@[3].0@ == fields::ascii(":path"@) && r@[3].1@ == fields::ascii("/auth"@),
        r@[4].0@ == fields::ascii("hysteria-auth"@) && r@[4].1@ == fields::ascii(password@),
        r@[5].0@ == fields::ascii("hysteria-cc-rx"@) && r@[5].1@ == fields::ascii("0"@),
        r@[6].0@ == fields::ascii("hysteria-padding"@) && r@[6].1@ == padding@,
{
    let b = fields::block(r@);
    assert(b.len() == 7);
    assert(b[0] == (r@[0].0@, r@[0].1@) && b[1] == (r@[1].0@, r@[1].1@) && b[2] == (r@[2].0@, r@[2].1@));
    assert(b[3] == (r@[3].0@, r@[3].1@) && b[4] == (r@[4].0@, r@[4].1@) && b[5] == (r@[5].0@, r@[5].1@));
    assert(b[6] == (r@[6].0@, r@[6].1@));
}

/// An address is asked for exactly if its text has at most 2048 bytes.
pub proof fn only_a_short_address_is_asked_for(target: &Target, padding: &[u8], r: Result<Vec<u8>, ProxyError>)
    requires
        padding@.len() < varint::LIMIT,
        call_ensures(open_request, (target, padding), r),
    ensures
        r is Ok <==> vstd::utf8::encode_utf8(target::target_text(*target)).len() <= 2048,
        r is Ok ==> r->Ok_0@ == request_frame(*target, padding@),
        r is Err ==> r->Err_0 is Address,
{
}

/// An egress of streams carries no datagrams, so that no flow over it keeps QUIC.
pub proof fn a_stream_egress_carries_no_datagrams(e: &Hysteria2Egress, r: PathProperties)
    requires
        call_ensures(Hysteria2Egress::capabilities, (e,), r),
    ensures
        r.datagram_fidelity == DatagramFidelity::Absent,
        r.max_datagram_size is None,
        r.overhead_bytes == 0,
        !r.preserves_ecn,
        r.nat_behavior == e.config.nat_behavior,
{
}

} // verus!
