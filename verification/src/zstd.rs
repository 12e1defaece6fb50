//! Zstandard bodies a chunk at a time: a pushing adapter over a decoder that
//! pulls, bounded in what it holds and in what it gives.

use vstd::prelude::*;
use vstd::slice::slice_subrange;

use crate::fields::bytes_of;

verus! {

/// The most that the decoder is given at once: the largest block with its
/// header and the frame's.
pub const ZSTD_STAGING_BYTES: usize = 131_093;

/// The largest window that the decoder accepts.
pub const ZSTD_WINDOW_BYTES: u64 = 8_388_608;

/// The most that one chunk may decode to. It bounds what a small body can
/// expand to, whatever its declared length.
pub const MAX_DECODED_CHUNK_BYTES: usize = 8_388_608;

/// The body is malformed, cut short, or expands too far.
#[derive(Clone, Copy, Debug, PartialEq, Eq, Structural)]
pub struct Undecodable;

impl Undecodable {
    pub fn message(&self) -> (r: &'static str)
        ensures
            r@ == "the compressed body could not be decoded"@,
    {
        "the compressed body could not be decoded"
    }
}

/// Plaintext within the ceiling, whatever coding it came from.
pub fn within_ceiling(plain: Vec<u8>) -> (r: Result<Vec<u8>, Undecodable>)
    ensures
        r is Ok == (plain@.len() <= MAX_DECODED_CHUNK_BYTES),
        r matches Ok(p) ==> p@ == plain@,
{
    if plain.len() <= MAX_DECODED_CHUNK_BYTES {
        Ok(plain)
    } else {
        Err(Undecodable)
    }
}

#[verifier::external_type_specification]
#[verifier::external_body]
pub struct ExFrameDecoder(ruzstd::decoding::FrameDecoder);

/// What is done to a decoder.
pub enum Deed {
    /// It was given a piece.
    Fed(Seq<u8>),
    /// What it had ready was collected.
    Collected,
}

/// What was done to a decoder, in order.
pub uninterp spec fn frame_deeds(d: ruzstd::decoding::FrameDecoder) -> Seq<Deed>;

/// The largest window that a decoder accepts.
pub uninterp spec fn frame_window(d: ruzstd::decoding::FrameDecoder) -> u64;

/// What a decoder makes of one more piece, after these deeds: how many bytes it
/// reads, or `Err(true)` where the piece breaks off in a header, or `Err(false)`
/// where it cannot be decoded.
pub uninterp spec fn frame_read(window: u64, deeds: Seq<Deed>, piece: Seq<u8>) -> Result<
    usize,
    bool,
>;

/// The plain bytes that a decoder has ready after these deeds.
pub uninterp spec fn frame_ready(window: u64, deeds: Seq<Deed>) -> Seq<u8>;

/// Whether a decoder has decoded a whole frame after these deeds.
pub uninterp spec fn frame_done(window: u64, deeds: Seq<Deed>) -> bool;

/// `ruzstd::decoding::FrameDecoder::new`: a decoder to which nothing was done.
#[verifier::external_body]
fn new_frame() -> (r: ruzstd::decoding::FrameDecoder)
    ensures
        frame_deeds(r) == Seq::<Deed>::empty(),
{
    ruzstd::decoding::FrameDecoder::new()
}

/// `FrameDecoder::set_max_window_size` on a decoder to which nothing was done:
/// frames with a larger window will be refused. The largest window of the format
/// is far above the argument's bound, so the size is kept as it is.
#[verifier::external_body]
fn limit_window(d: &mut ruzstd::decoding::FrameDecoder, window: u64)
    requires
        window <= 1_000_000_000,
        frame_deeds(*old(d)).len() == 0,
    ensures
        frame_window(*final(d)) == window,
        frame_deeds(*final(d)) == frame_deeds(*old(d)),
{
    d.set_max_window_size(window)
}

/// `FrameDecoder::decode_from_to` into an empty target: decodes the whole
/// blocks of the piece and reports how many bytes it read. What it reads is a
/// function of the window and of all that was done to the decoder, collecting
/// included, since a match may only reach into what the decoder still holds. The
/// function is named and not written out here. An error is told apart by whether
/// an input that ended too early is among its causes.
#[verifier::external_body]
fn feed_frame(d: &mut ruzstd::decoding::FrameDecoder, piece: &[u8]) -> (r: Result<usize, bool>)
    ensures
        r == frame_read(frame_window(*old(d)), frame_deeds(*old(d)), piece@),
        frame_deeds(*final(d)) == frame_deeds(*old(d)).push(Deed::Fed(piece@)),
        frame_window(*final(d)) == frame_window(*old(d)),
{
    let error = match d.decode_from_to(piece, &mut []) {
        Ok((read, _)) => return Ok(read),
        Err(error) => error,
    };
    let mut cause: Option<&(dyn std::error::Error + 'static)> = Some(&error);
    while let Some(found) = cause {
        if let Some(io) = found.downcast_ref::<std::io::Error>() {
            return Err(io.kind() == std::io::ErrorKind::UnexpectedEof);
        }
        cause = found.source();
    }
    Err(false)
}

/// `FrameDecoder::collect_to_writer` into a vector, which takes every write:
/// appends the plain bytes that the decoder has ready.
#[verifier::external_body]
fn collect_frame(d: &mut ruzstd::decoding::FrameDecoder, plain: &mut Vec<u8>) -> (r: bool)
    ensures
        r,
        final(plain)@ == old(plain)@ + frame_ready(frame_window(*old(d)), frame_deeds(*old(d))),
        frame_deeds(*final(d)) == frame_deeds(*old(d)).push(Deed::Collected),
        frame_window(*final(d)) == frame_window(*old(d)),
{
    d.collect_to_writer(plain).is_ok()
}

/// `FrameDecoder::is_finished`: whether the frame's last block, and its
/// checksum where it has one, were decoded. A decoder that has read no header
/// counts as finished.
#[verifier::external_body]
fn frame_finished(d: &ruzstd::decoding::FrameDecoder) -> (r: bool)
    ensures
        r == frame_done(frame_window(*d), frame_deeds(*d)),
{
    d.is_finished()
}

/// Where a decoder stands.
pub struct Progress {
    pub window: u64,
    pub deeds: Seq<Deed>,
    /// Plain bytes that were not handed on yet.
    pub plain: Seq<u8>,
    /// Whether any piece was decoded.
    pub started: bool,
}

/// The end of a pass: bytes after a whole frame are an error, since a second
/// frame would otherwise be cut off silently.
pub open spec fn settled(p: Progress, source: Seq<u8>, used: int) -> (Progress, Option<int>) {
    if p.started && frame_done(p.window, p.deeds) && used < source.len() {
        (p, None)
    } else {
        (p, Some(used))
    }
}

/// The piece that is given next.
pub open spec fn next_piece(source: Seq<u8>, used: int) -> Seq<u8> {
    if source.len() - used > ZSTD_STAGING_BYTES {
        source.subrange(used, used + ZSTD_STAGING_BYTES)
    } else {
        source.subrange(used, source.len() as int)
    }
}

/// Where a decoder stands after it read a piece, and what was ready was
/// collected.
pub open spec fn advanced(p: Progress, piece: Seq<u8>) -> Progress {
    let deeds = p.deeds.push(Deed::Fed(piece));
    Progress {
        window: p.window,
        deeds: deeds.push(Deed::Collected),
        plain: p.plain + frame_ready(p.window, deeds),
        started: true,
    }
}

/// A pass over `source` from `used` on: where the decoder stands after it, and
/// how much of the source it read; `None` where it cannot be decoded.
pub open spec fn passed(p: Progress, source: Seq<u8>, used: int) -> (Progress, Option<int>)
    decreases source.len() - used,
{
    if !(0 <= used < source.len()) {
        settled(p, source, used)
    } else {
        let piece = next_piece(source, used);
        match frame_read(p.window, p.deeds, piece) {
            Err(incomplete) => {
                let after = Progress { deeds: p.deeds.push(Deed::Fed(piece)), ..p };
                if incomplete {
                    settled(after, source, used)
                } else {
                    (after, None)
                }
            },
            Ok(read) => {
                let after = advanced(p, piece);
                if after.plain.len() > MAX_DECODED_CHUNK_BYTES {
                    (after, None)
                } else if read == 0 || read > piece.len() {
                    settled(after, source, used)
                } else {
                    passed(after, source, used + read)
                }
            },
        }
    }
}

/// A pushing adapter over the decoder.
pub struct Zstd {
    frame: ruzstd::decoding::FrameDecoder,
    pending: Vec<u8>,
    plain: Vec<u8>,
    started: bool,
}

impl Zstd {
    pub closed spec fn progress(&self) -> Progress {
        Progress {
            window: frame_window(self.frame),
            deeds: frame_deeds(self.frame),
            plain: self.plain@,
            started: self.started,
        }
    }

    /// Coded bytes that do not make a whole block yet.
    pub closed spec fn pending(&self) -> Seq<u8> {
        self.pending@
    }

    pub fn new() -> (r: Self)
        ensures
            r.progress() == (Progress {
                window: ZSTD_WINDOW_BYTES,
                deeds: Seq::empty(),
                plain: Seq::empty(),
                started: false,
            }),
            r.pending() == Seq::<u8>::empty(),
    {
        let mut frame = new_frame();
        limit_window(&mut frame, ZSTD_WINDOW_BYTES);
        Zstd { frame, pending: Vec::new(), plain: Vec::new(), started: false }
    }

    /// Decodes what it can of `source`; says how much that was.
    fn drain(&mut self, source: &[u8]) -> (r: Result<usize, Undecodable>)
        ensures
            final(self).pending() == old(self).pending(),
            r is Ok == passed(old(self).progress(), source@, 0).1 is Some,
            r matches Ok(used) ==> passed(old(self).progress(), source@, 0) == (
                final(self).progress(),
                Some(used as int),
            ) && used <= source@.len(),
    {
        let len: usize = source.len();
        let mut used: usize = 0;
        let ghost start = self.progress();
        loop
            invariant_except_break
                used <= len,
                len == source@.len(),
                start == old(self).progress(),
                self.pending() == old(self).pending(),
                passed(self.progress(), source@, used as int) == passed(start, source@, 0),
            ensures
                used <= len,
                self.pending() == old(self).pending(),
                settled(self.progress(), source@, used as int) == passed(start, source@, 0),
            decreases len - used,
        {
            if used >= len {
                break;
            }
            let end: usize = if len - used > ZSTD_STAGING_BYTES {
                used + ZSTD_STAGING_BYTES
            } else {
                len
            };
            let piece: &[u8] = slice_subrange(source, used, end);
            assert(piece@ == next_piece(source@, used as int));
            let ghost before = self.progress();
            let read: usize = match feed_frame(&mut self.frame, piece) {
                Ok(read) => read,
                Err(incomplete) => {
                    if incomplete {
                        break;
                    }
                    return Err(Undecodable);
                },
            };
            self.started = true;
            if !collect_frame(&mut self.frame, &mut self.plain) {
                return Err(Undecodable);
            }
            assert(self.progress() == advanced(before, piece@));
            if self.plain.len() > MAX_DECODED_CHUNK_BYTES {
                return Err(Undecodable);
            }
            if read == 0 || read > end - used {
                break;
            }
            used = used + read;
        }
        if self.started && frame_finished(&self.frame) && used < len {
            return Err(Undecodable);
        }
        Ok(used)
    }

    /// Takes one chunk of the body.
    pub fn push(&mut self, chunk: &[u8]) -> (r: Result<(), Undecodable>)
        ensures
            r is Ok == passed(old(self).progress(), old(self).pending() + chunk@, 0).1 is Some,
            r is Ok ==> ({
                let (after, used) = passed(
                    old(self).progress(),
                    old(self).pending() + chunk@,
                    0,
                );
                used is Some && final(self).progress() == after && final(self).pending() == (old(self).pending() + chunk@).skip(used->0)
            }),
    {
        let mut held: Vec<u8> = Vec::new();
        std::mem::swap(&mut held, &mut self.pending);
        held.extend_from_slice(chunk);
        assert(held@ =~= old(self).pending() + chunk@);
        let n: usize = held.len();
        match self.drain(held.as_slice()) {
            Ok(used) => {
                let rest: &[u8] = slice_subrange(held.as_slice(), used, n);
                assert(rest@ =~= held@.skip(used as int));
                self.pending = bytes_of(rest);
                Ok(())
            },
            Err(e) => Err(e),
        }
    }

    /// Hands over the plain bytes that are ready.
    pub fn take_plain(&mut self) -> (r: Vec<u8>)
        ensures
            r@ == old(self).progress().plain,
            final(self).progress() == (Progress { plain: Seq::empty(), ..old(self).progress() }),
            final(self).pending() == old(self).pending(),
    {
        let mut r: Vec<u8> = Vec::new();
        std::mem::swap(&mut r, &mut self.plain);
        assert(self.plain@ =~= Seq::<u8>::empty());
        r
    }

    /// Ends the body: a whole frame must have been decoded, with nothing after
    /// it.
    pub fn finish(&mut self) -> (r: Result<Vec<u8>, Undecodable>)
        ensures
            r is Ok == (old(self).progress().started && frame_done(
                old(self).progress().window,
                old(self).progress().deeds,
            ) && old(self).pending().len() == 0),
            r matches Ok(plain) ==> plain@ == old(self).progress().plain,
    {
        if self.started && frame_finished(&self.frame) && self.pending.len() == 0 {
            Ok(self.take_plain())
        } else {
            Err(Undecodable)
        }
    }
}

/// What one chunk decodes to is handed on whole up to eight mebibytes, and beyond them not
/// at all.
pub proof fn an_expansion_is_bounded(plain: Vec<u8>, r: Result<Vec<u8>, Undecodable>)
    requires
        call_ensures(within_ceiling, (plain,), r),
    ensures
        r is Ok <==> plain@.len() <= 8 * 1024 * 1024,
        r matches Ok(p) ==> p@ == plain@,
{
}

/// A body ends well exactly if a whole frame was decoded and nothing was left of what came;
/// then everything that is plain and not handed on yet comes with the end.
pub proof fn a_body_ends_with_its_frame(z: &mut Zstd, r: Result<Vec<u8>, Undecodable>)
    requires
        call_ensures(Zstd::finish, (z,), r),
    ensures
        !old(z).progress().started ==> r is Err,
        old(z).pending().len() > 0 ==> r is Err,
        !frame_done(old(z).progress().window, old(z).progress().deeds) ==> r is Err,
        old(z).progress().started && old(z).pending().len() == 0 && frame_done(
            old(z).progress().window,
            old(z).progress().deeds,
        ) ==> r is Ok,
        r matches Ok(plain) ==> plain@ == old(z).progress().plain,
{
}

/// Bytes behind a whole frame are an error, wherever they begin: a second frame is never
/// cut off silently.
pub proof fn nothing_follows_a_frame(p: Progress, source: Seq<u8>, used: int)
    requires
        p.started,
        frame_done(p.window, p.deeds),
    ensures
        used < source.len() ==> settled(p, source, used).1 is None,
        used >= source.len() ==> settled(p, source, used) == (p, Some(used)),
{
}

} // verus!
