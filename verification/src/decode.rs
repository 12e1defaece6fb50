//! Coded bodies a chunk at a time, whatever their coding.

use vstd::prelude::*;

use crate::fields::bytes_of;
use crate::rewrite::Coding;
#[allow(unused_imports)]
use crate::zstd;
use crate::zstd::{within_ceiling, Undecodable, Zstd, MAX_DECODED_CHUNK_BYTES};

verus! {

/// Brotli's staging buffer.
pub const BROTLI_BUFFER_BYTES: usize = 65_536;

/// `flate2::write::GzDecoder` over a vector.
#[verifier::external_body]
pub struct Gunzip {
    inner: flate2::write::GzDecoder<Vec<u8>>,
}

/// The bytes that a gzip decoder was given.
pub uninterp spec fn gzip_fed(d: Gunzip) -> Seq<u8>;

/// The plain bytes that a gzip decoder gave so far.
pub uninterp spec fn gzip_given(d: Gunzip) -> Seq<u8>;

/// Whether a gzip decoder has refused nothing.
pub uninterp spec fn gzip_sound(d: Gunzip) -> bool;

/// What a gzip body of these bytes decodes to; nothing where it is refused, cut
/// short among others.
pub uninterp spec fn gzip_plain(bytes: Seq<u8>) -> Option<Seq<u8>>;

/// Whether no bytes behind these make a body of them.
pub open spec fn gzip_hopeless(bytes: Seq<u8>) -> bool {
    forall|rest: Seq<u8>| (#[trigger] gzip_plain(bytes + rest)) is None
}

/// Whether these plain bytes begin every body that begins with `bytes`.
pub open spec fn gzip_begins(bytes: Seq<u8>, plain: Seq<u8>) -> bool {
    forall|rest: Seq<u8>|
        (#[trigger] gzip_plain(bytes + rest)) matches Some(all) ==> plain.is_prefix_of(all)
}

/// `flate2::write::GzDecoder::new`: a decoder that was given nothing.
#[verifier::external_body]
fn new_gunzip() -> (r: Gunzip)
    ensures
        gzip_fed(r) == Seq::<u8>::empty(),
        gzip_given(r) == Seq::<u8>::empty(),
        gzip_sound(r),
{
    Gunzip { inner: flate2::write::GzDecoder::new(Vec::new()) }
}

/// `GzDecoder::write_all`, and taking what reached the vector. The decoder may hold
/// some of the plain bytes back, so how many come is not promised. Those that do
/// go on where the last ended, in every body that goes on as this one did. A chunk
/// is refused only where no body goes on so.
#[verifier::external_body]
fn feed_gunzip(d: &mut Gunzip, chunk: &[u8]) -> (r: Option<Vec<u8>>)
    requires
        gzip_sound(*old(d)),
    ensures
        r is Some == gzip_sound(*final(d)),
        r is None ==> gzip_hopeless(gzip_fed(*old(d)) + chunk@),
        r matches Some(plain) ==> gzip_fed(*final(d)) == gzip_fed(*old(d)) + chunk@
            && gzip_given(*final(d)) == gzip_given(*old(d)) + plain@ && gzip_begins(
            gzip_fed(*final(d)),
            gzip_given(*final(d)),
        ),
{
    match std::io::Write::write_all(&mut d.inner, chunk) {
        Ok(()) => Some(std::mem::take(d.inner.get_mut())),
        Err(_) => None,
    }
}

/// `GzDecoder::try_finish`, and taking what reached the vector: the rest of what the
/// bytes decode to, however they were cut into chunks. The decoder is not used
/// again, since it may panic then.
#[verifier::external_body]
fn end_gunzip(d: Gunzip) -> (r: Option<Vec<u8>>)
    requires
        gzip_sound(d),
    ensures
        r is Some == gzip_plain(gzip_fed(d)) is Some,
        r matches Some(tail) ==> gzip_plain(gzip_fed(d)) == Some(gzip_given(d) + tail@),
{
    let mut d = d;
    match d.inner.try_finish() {
        Ok(()) => Some(std::mem::take(d.inner.get_mut())),
        Err(_) => None,
    }
}

/// `flate2::write::ZlibDecoder` over a vector.
#[verifier::external_body]
pub struct Inflate {
    inner: flate2::write::ZlibDecoder<Vec<u8>>,
}

/// The bytes that a deflate decoder was given.
pub uninterp spec fn deflate_fed(d: Inflate) -> Seq<u8>;

/// The plain bytes that a deflate decoder gave so far.
pub uninterp spec fn deflate_given(d: Inflate) -> Seq<u8>;

/// Whether a deflate decoder has refused nothing.
pub uninterp spec fn deflate_sound(d: Inflate) -> bool;

/// What a deflate body of these bytes decodes to; nothing where it is refused.
pub uninterp spec fn deflate_plain(bytes: Seq<u8>) -> Option<Seq<u8>>;

/// Whether no bytes behind these make a body of them.
pub open spec fn deflate_hopeless(bytes: Seq<u8>) -> bool {
    forall|rest: Seq<u8>| (#[trigger] deflate_plain(bytes + rest)) is None
}

/// Whether these plain bytes begin every body that begins with `bytes`.
pub open spec fn deflate_begins(bytes: Seq<u8>, plain: Seq<u8>) -> bool {
    forall|rest: Seq<u8>|
        (#[trigger] deflate_plain(bytes + rest)) matches Some(all) ==> plain.is_prefix_of(all)
}

/// `flate2::write::ZlibDecoder::new`: a decoder that was given nothing.
#[verifier::external_body]
fn new_inflate() -> (r: Inflate)
    ensures
        deflate_fed(r) == Seq::<u8>::empty(),
        deflate_given(r) == Seq::<u8>::empty(),
        deflate_sound(r),
{
    Inflate { inner: flate2::write::ZlibDecoder::new(Vec::new()) }
}

/// `ZlibDecoder::write_all`, and taking what reached the vector. The decoder may hold
/// some of the plain bytes back, so how many come is not promised. Those that do
/// go on where the last ended, in every body that goes on as this one did. A chunk
/// is refused only where no body goes on so.
#[verifier::external_body]
fn feed_inflate(d: &mut Inflate, chunk: &[u8]) -> (r: Option<Vec<u8>>)
    requires
        deflate_sound(*old(d)),
    ensures
        r is Some == deflate_sound(*final(d)),
        r is None ==> deflate_hopeless(deflate_fed(*old(d)) + chunk@),
        r matches Some(plain) ==> deflate_fed(*final(d)) == deflate_fed(*old(d)) + chunk@
            && deflate_given(*final(d)) == deflate_given(*old(d)) + plain@ && deflate_begins(
            deflate_fed(*final(d)),
            deflate_given(*final(d)),
        ),
{
    match std::io::Write::write_all(&mut d.inner, chunk) {
        Ok(()) => Some(std::mem::take(d.inner.get_mut())),
        Err(_) => None,
    }
}

/// `ZlibDecoder::try_finish`, and taking what reached the vector: the rest of what the
/// bytes decode to, however they were cut into chunks. The decoder is not used
/// again, since it may panic then.
#[verifier::external_body]
fn end_inflate(d: Inflate) -> (r: Option<Vec<u8>>)
    requires
        deflate_sound(d),
    ensures
        r is Some == deflate_plain(deflate_fed(d)) is Some,
        r matches Some(tail) ==> deflate_plain(deflate_fed(d)) == Some(deflate_given(d) + tail@),
{
    let mut d = d;
    match d.inner.try_finish() {
        Ok(()) => Some(std::mem::take(d.inner.get_mut())),
        Err(_) => None,
    }
}

/// `brotli_decompressor::DecompressorWriter` over a vector.
#[verifier::external_body]
pub struct Unbrotli {
    inner: brotli_decompressor::DecompressorWriter<Vec<u8>>,
}

/// The chunks that a brotli decoder was given, in order.
pub uninterp spec fn brotli_fed(d: Unbrotli) -> Seq<Seq<u8>>;

/// The staging buffer that a brotli decoder was made with.
pub uninterp spec fn brotli_room(d: Unbrotli) -> usize;

/// What a brotli decoder gives for one more chunk after these; nothing where it
/// refuses the chunk.
pub uninterp spec fn brotli_given(room: usize, fed: Seq<Seq<u8>>, chunk: Seq<u8>) -> Option<
    Seq<u8>,
>;

/// What a brotli decoder gives at the end of these chunks; nothing where they
/// are not a whole body.
pub uninterp spec fn brotli_tail(room: usize, fed: Seq<Seq<u8>>) -> Option<Seq<u8>>;

/// `brotli_decompressor::DecompressorWriter::new`: a decoder that was given
/// nothing, with a staging buffer of this size.
#[verifier::external_body]
fn new_unbrotli(room: usize) -> (r: Unbrotli)
    requires
        0 < room <= 0x100_0000,
    ensures
        brotli_fed(r) == Seq::<Seq<u8>>::empty(),
        brotli_room(r) == room,
{
    Unbrotli { inner: brotli_decompressor::DecompressorWriter::new(Vec::new(), room) }
}

/// `DecompressorWriter::write_all`, and taking what reached the vector. The
/// buffer's size and the chunks so far decide, by a function that is named and
/// not written out here.
#[verifier::external_body]
fn feed_unbrotli(d: &mut Unbrotli, chunk: &[u8]) -> (r: Option<Vec<u8>>)
    ensures
        r is Some == brotli_given(brotli_room(*old(d)), brotli_fed(*old(d)), chunk@) is Some,
        r matches Some(plain) ==> brotli_given(
            brotli_room(*old(d)),
            brotli_fed(*old(d)),
            chunk@,
        ) == Some(plain@),
        brotli_fed(*final(d)) == brotli_fed(*old(d)).push(chunk@),
        brotli_room(*final(d)) == brotli_room(*old(d)),
{
    match std::io::Write::write_all(&mut d.inner, chunk) {
        Ok(()) => Some(std::mem::take(d.inner.get_mut())),
        Err(_) => None,
    }
}

/// `DecompressorWriter::close`, and taking what reached the vector.
#[verifier::external_body]
fn end_unbrotli(d: Unbrotli) -> (r: Option<Vec<u8>>)
    ensures
        r is Some == brotli_tail(brotli_room(d), brotli_fed(d)) is Some,
        r matches Some(plain) ==> brotli_tail(brotli_room(d), brotli_fed(d)) == Some(plain@),
{
    let mut d = d;
    match d.inner.close() {
        Ok(()) => Some(std::mem::take(d.inner.get_mut())),
        Err(_) => None,
    }
}

/// A body as far as it was taken. Of gzip and deflate it is what was fed and
/// what was given.
pub enum Stream {
    Identity,
    Gzip(Seq<u8>, Seq<u8>),
    Deflate(Seq<u8>, Seq<u8>),
    Brotli(Seq<Seq<u8>>),
    Zstd(zstd::Progress, Seq<u8>),
    /// Its end was taken, or it was refused.
    Over,
}

/// A body of which nothing was taken.
pub open spec fn fresh(coding: Coding) -> Stream {
    match coding {
        Coding::Identity => Stream::Identity,
        Coding::Gzip => Stream::Gzip(seq![], seq![]),
        Coding::Deflate => Stream::Deflate(seq![], seq![]),
        Coding::Brotli => Stream::Brotli(seq![]),
        Coding::Zstd => Stream::Zstd(
            zstd::Progress {
                window: zstd::ZSTD_WINDOW_BYTES,
                deeds: seq![],
                plain: seq![],
                started: false,
            },
            seq![],
        ),
    }
}

/// Whether one more chunk decodes to `plain`. Of gzip and deflate some may be
/// held back; of the others it is exactly this.
pub open spec fn decodes(s: Stream, chunk: Seq<u8>, plain: Seq<u8>) -> bool {
    match s {
        Stream::Identity => plain == chunk,
        Stream::Gzip(fed, given) => gzip_begins(fed + chunk, given + plain),
        Stream::Deflate(fed, given) => deflate_begins(fed + chunk, given + plain),
        Stream::Brotli(fed) => brotli_given(BROTLI_BUFFER_BYTES, fed, chunk) == Some(plain),
        Stream::Zstd(progress, pending) => {
            let (after, used) = zstd::passed(progress, pending + chunk, 0);
            used is Some && after.plain == plain
        },
        Stream::Over => false,
    }
}

/// Whether one more chunk cannot be decoded.
pub open spec fn hopeless(s: Stream, chunk: Seq<u8>) -> bool {
    match s {
        Stream::Identity => false,
        Stream::Gzip(fed, _) => gzip_hopeless(fed + chunk),
        Stream::Deflate(fed, _) => deflate_hopeless(fed + chunk),
        Stream::Brotli(fed) => brotli_given(BROTLI_BUFFER_BYTES, fed, chunk) is None,
        Stream::Zstd(progress, pending) => zstd::passed(progress, pending + chunk, 0).1 is None,
        Stream::Over => true,
    }
}

/// The body after one more chunk was decoded to `plain`.
pub open spec fn advanced(s: Stream, chunk: Seq<u8>, plain: Seq<u8>) -> Stream {
    match s {
        Stream::Identity => Stream::Identity,
        Stream::Gzip(fed, given) => Stream::Gzip(fed + chunk, given + plain),
        Stream::Deflate(fed, given) => Stream::Deflate(fed + chunk, given + plain),
        Stream::Brotli(fed) => Stream::Brotli(fed.push(chunk)),
        Stream::Zstd(progress, pending) => {
            let (after, used) = zstd::passed(progress, pending + chunk, 0);
            Stream::Zstd(
                zstd::Progress { plain: seq![], ..after },
                (pending + chunk).skip(used->0),
            )
        },
        Stream::Over => Stream::Over,
    }
}

/// What the end of a body decodes to; nothing where the body is cut short. Of
/// gzip and deflate it is all that was not given yet.
pub open spec fn finished(s: Stream) -> Option<Seq<u8>> {
    match s {
        Stream::Identity => Some(seq![]),
        Stream::Gzip(fed, given) => match gzip_plain(fed) {
            Some(all) => Some(all.skip(given.len() as int)),
            None => None,
        },
        Stream::Deflate(fed, given) => match deflate_plain(fed) {
            Some(all) => Some(all.skip(given.len() as int)),
            None => None,
        },
        Stream::Brotli(fed) => brotli_tail(BROTLI_BUFFER_BYTES, fed),
        Stream::Zstd(progress, pending) => if progress.started && zstd::frame_done(
            progress.window,
            progress.deeds,
        ) && pending.len() == 0 {
            Some(progress.plain)
        } else {
            None
        },
        Stream::Over => None,
    }
}

enum Inner {
    Identity,
    Gzip(Gunzip),
    Deflate(Inflate),
    Brotli(Unbrotli),
    Zstd(Zstd),
    Over,
}

/// A decoder that is given a body chunk by chunk.
pub struct Decoder {
    inner: Inner,
}

impl View for Decoder {
    type V = Stream;

    closed spec fn view(&self) -> Stream {
        match self.inner {
            Inner::Identity => Stream::Identity,
            Inner::Gzip(d) => Stream::Gzip(gzip_fed(d), gzip_given(d)),
            Inner::Deflate(d) => Stream::Deflate(deflate_fed(d), deflate_given(d)),
            Inner::Brotli(d) => Stream::Brotli(brotli_fed(d)),
            Inner::Zstd(d) => Stream::Zstd(d.progress(), d.pending()),
            Inner::Over => Stream::Over,
        }
    }
}

impl Decoder {
    #[verifier::type_invariant]
    spec fn inv(&self) -> bool {
        match self.inner {
            Inner::Gzip(d) => gzip_sound(d),
            Inner::Deflate(d) => deflate_sound(d),
            Inner::Brotli(d) => brotli_room(d) == BROTLI_BUFFER_BYTES,
            _ => true,
        }
    }

    pub fn new(coding: Coding) -> (r: Self)
        ensures
            r@ == fresh(coding),
    {
        let inner = match coding {
            Coding::Identity => Inner::Identity,
            Coding::Gzip => Inner::Gzip(new_gunzip()),
            Coding::Deflate => Inner::Deflate(new_inflate()),
            Coding::Brotli => Inner::Brotli(new_unbrotli(BROTLI_BUFFER_BYTES)),
            Coding::Zstd => Inner::Zstd(Zstd::new()),
        };
        Decoder { inner }
    }

    /// Decodes one more chunk. What it decodes to is bounded, but for a body
    /// that is not coded. Nothing is decoded after a failure.
    pub fn decode(&mut self, chunk: &[u8]) -> (r: Result<Vec<u8>, Undecodable>)
        ensures
            r matches Ok(plain) ==> decodes(old(self)@, chunk@, plain@) && final(self)@ == advanced(
                old(self)@,
                chunk@,
                plain@,
            ) && (old(self)@ is Identity || plain@.len() <= MAX_DECODED_CHUNK_BYTES),
            r is Err ==> final(self)@ is Over && !(old(self)@ is Identity) && (hopeless(
                old(self)@,
                chunk@,
            ) || exists|plain: Seq<u8>| #[trigger]
                decodes(old(self)@, chunk@, plain) && plain.len() > MAX_DECODED_CHUNK_BYTES),
    {
        proof {
            use_type_invariant(&*self);
        }
        let mut inner = Inner::Over;
        std::mem::swap(&mut inner, &mut self.inner);
        let (next, plain): (Inner, Vec<u8>) = match inner {
            Inner::Identity => {
                self.inner = Inner::Identity;
                return Ok(bytes_of(chunk));
            },
            Inner::Gzip(d) => {
                let mut d = d;
                match feed_gunzip(&mut d, chunk) {
                    Some(plain) => (Inner::Gzip(d), plain),
                    None => {
                        return Err(Undecodable);
                    },
                }
            },
            Inner::Deflate(d) => {
                let mut d = d;
                match feed_inflate(&mut d, chunk) {
                    Some(plain) => (Inner::Deflate(d), plain),
                    None => {
                        return Err(Undecodable);
                    },
                }
            },
            Inner::Brotli(d) => {
                let mut d = d;
                match feed_unbrotli(&mut d, chunk) {
                    Some(plain) => (Inner::Brotli(d), plain),
                    None => {
                        return Err(Undecodable);
                    },
                }
            },
            Inner::Zstd(d) => {
                let mut d = d;
                match d.push(chunk) {
                    Ok(()) => {
                        let plain: Vec<u8> = d.take_plain();
                        (Inner::Zstd(d), plain)
                    },
                    Err(_) => {
                        return Err(Undecodable);
                    },
                }
            },
            Inner::Over => {
                return Err(Undecodable);
            },
        };
        assert(decodes(old(self)@, chunk@, plain@));
        match within_ceiling(plain) {
            Ok(plain) => {
                self.inner = next;
                Ok(plain)
            },
            Err(e) => Err(e),
        }
    }

    /// Ends the body; one that is cut short fails. Nothing is decoded after.
    pub fn finish(&mut self) -> (r: Result<Vec<u8>, Undecodable>)
        ensures
            r is Ok == finished(old(self)@) is Some,
            r matches Ok(tail) ==> tail@ == finished(old(self)@)->0 && is_whole(old(self)@, tail@),
            final(self)@ is Over,
    {
        proof {
            use_type_invariant(&*self);
        }
        let mut inner = Inner::Over;
        std::mem::swap(&mut inner, &mut self.inner);
        let tail: Option<Vec<u8>> = match inner {
            Inner::Identity => Some(Vec::new()),
            Inner::Gzip(d) => {
                let ghost given = gzip_given(d);
                let tail: Option<Vec<u8>> = end_gunzip(d);
                proof {
                    if tail is Some {
                        assert((given + tail->0@).skip(given.len() as int) =~= tail->0@);
                    }
                }
                tail
            },
            Inner::Deflate(d) => {
                let ghost given = deflate_given(d);
                let tail: Option<Vec<u8>> = end_inflate(d);
                proof {
                    if tail is Some {
                        assert((given + tail->0@).skip(given.len() as int) =~= tail->0@);
                    }
                }
                tail
            },
            Inner::Brotli(d) => end_unbrotli(d),
            Inner::Zstd(d) => {
                let mut d = d;
                match d.finish() {
                    Ok(plain) => Some(plain),
                    Err(_) => None,
                }
            },
            Inner::Over => None,
        };
        match tail {
            Some(plain) => {
                assert(old(self)@ is Identity ==> plain@ =~= seq![]);
                Ok(plain)
            },
            None => Err(Undecodable),
        }
    }
}

/// Whether what was given and the tail are together what the bytes decode to.
pub open spec fn is_whole(s: Stream, tail: Seq<u8>) -> bool {
    match s {
        Stream::Gzip(fed, given) => gzip_plain(fed) == Some(given + tail),
        Stream::Deflate(fed, given) => deflate_plain(fed) == Some(given + tail),
        _ => true,
    }
}

/// Pieces one after the other.
pub open spec fn joined(pieces: Seq<Seq<u8>>) -> Seq<u8>
    decreases pieces.len(),
{
    if pieces.len() == 0 {
        seq![]
    } else {
        joined(pieces.drop_last()) + pieces.last()
    }
}

/// The body after these chunks were decoded to these plain pieces.
pub open spec fn taken(coding: Coding, chunks: Seq<Seq<u8>>, plains: Seq<Seq<u8>>) -> Stream
    decreases chunks.len(),
{
    if chunks.len() == 0 {
        fresh(coding)
    } else {
        advanced(
            taken(coding, chunks.drop_last(), plains.drop_last()),
            chunks.last(),
            plains.last(),
        )
    }
}

proof fn lemma_taken(chunks: Seq<Seq<u8>>, plains: Seq<Seq<u8>>)
    requires
        chunks.len() == plains.len(),
    ensures
        taken(Coding::Gzip, chunks, plains) == Stream::Gzip(joined(chunks), joined(plains)),
        taken(Coding::Deflate, chunks, plains) == Stream::Deflate(joined(chunks), joined(plains)),
    decreases chunks.len(),
{
    if chunks.len() > 0 {
        lemma_taken(chunks.drop_last(), plains.drop_last());
    }
}

/// How a body is cut into chunks does not matter: whatever pieces it decoded to,
/// they and the tail are together the same plain text.
pub proof fn chunks_do_not_matter(
    coding: Coding,
    chunks: Seq<Seq<u8>>,
    plains: Seq<Seq<u8>>,
    tail: Seq<u8>,
    others: Seq<Seq<u8>>,
    other_plains: Seq<Seq<u8>>,
    other_tail: Seq<u8>,
)
    requires
        coding == Coding::Gzip || coding == Coding::Deflate,
        chunks.len() == plains.len(),
        others.len() == other_plains.len(),
        joined(chunks) == joined(others),
        is_whole(taken(coding, chunks, plains), tail),
        is_whole(taken(coding, others, other_plains), other_tail),
    ensures
        joined(plains) + tail == joined(other_plains) + other_tail,
{
    lemma_taken(chunks, plains);
    lemma_taken(others, other_plains);
}

/// A body that is not coded passes as it is, chunk by chunk, and is never refused. A body
/// whose end was taken, or that was refused, gives nothing more and stays so.
pub proof fn a_plain_body_passes_as_it_is(chunk: Seq<u8>, plain: Seq<u8>)
    ensures
        decodes(Stream::Identity, chunk, plain) <==> plain == chunk,
        !hopeless(Stream::Identity, chunk),
        advanced(Stream::Identity, chunk, plain) is Identity,
        finished(Stream::Identity) == Some(Seq::<u8>::empty()),
        !decodes(Stream::Over, chunk, plain),
        hopeless(Stream::Over, chunk),
        advanced(Stream::Over, chunk, plain) is Over,
        finished(Stream::Over) is None,
{
}

/// What a body was given and what it gave are counted on, chunk by chunk.
pub proof fn every_chunk_is_counted_on(fed: Seq<u8>, given: Seq<u8>, chunk: Seq<u8>, plain: Seq<u8>)
    ensures
        advanced(Stream::Gzip(fed, given), chunk, plain) == Stream::Gzip(fed + chunk, given + plain),
        advanced(Stream::Deflate(fed, given), chunk, plain) == Stream::Deflate(fed + chunk, given + plain),
{
}

/// Which decoder a coding gets, and that it starts with nothing.
pub proof fn a_coding_gets_its_own_decoder(coding: Coding, d: Decoder)
    requires
        call_ensures(Decoder::new, (coding,), d),
    ensures
        coding == Coding::Identity <==> d@ is Identity,
        coding == Coding::Gzip <==> d@ is Gzip,
        coding == Coding::Deflate <==> d@ is Deflate,
        coding == Coding::Brotli <==> d@ is Brotli,
        coding == Coding::Zstd <==> d@ is Zstd,
{
}

/// What came of a gzip or a deflate body and its end are together the whole plain body.
pub proof fn the_end_completes_the_body(d: &mut Decoder, r: Result<Vec<u8>, Undecodable>)
    requires
        call_ensures(Decoder::finish, (d,), r),
    ensures
        old(d)@ is Identity ==> r is Ok && r->Ok_0@.len() == 0,
        old(d)@ is Over ==> r is Err,
        old(d)@ matches Stream::Gzip(fed, given) ==> (r is Ok <==> gzip_plain(fed) is Some) && (r is Ok ==> gzip_plain(
            fed,
        ) == Some(given + r->Ok_0@)),
        old(d)@ matches Stream::Deflate(fed, given) ==> (r is Ok <==> deflate_plain(fed) is Some) && (r is Ok
            ==> deflate_plain(fed) == Some(given + r->Ok_0@)),
        final(d)@ is Over,
{
}

} // verus!
