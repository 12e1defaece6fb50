//! Bounded IPv4 and IPv6 fragment reassembly.
//!
//! Validation follows RFC 8200 and RFC 5722: overlaps discard the whole
//! datagram, non-final fragments use complete 8-byte blocks, completed packets
//! fit within 64 KiB, and capacity plus expiry bound memory.
//!
//! A pending datagram is, in contracts, the fragments accepted for it so far.

use vstd::prelude::*;
use vstd::set_lib::*;
#[allow(unused_imports)]
use crate::l3::fragment;

use crate::l3::fragment::Fragment;

verus! {

/// The largest datagram.
pub const MAX_DATAGRAM_BYTES: usize = 65535;

/// Words of a bitmap with one bit per 8-byte block.
pub const BITMAP_WORDS: usize = 128;

/// One accepted fragment of a datagram.
#[verifier::ext_equal]
pub struct Piece {
    pub offset: int,
    pub payload: Seq<u8>,
    /// Whether it is the final fragment.
    pub last: bool,
    pub headers: Seq<u8>,
    pub next_header_at: Option<usize>,
}

impl Piece {
    /// The place behind its last byte.
    pub open spec fn extent(self) -> int {
        self.offset + self.payload.len()
    }

    /// Whether it carries the byte at a place.
    pub open spec fn covers(self, at: int) -> bool {
        self.offset <= at < self.extent()
    }

    /// Whether two pieces carry a byte of the same place.
    pub open spec fn overlaps(self, other: Piece) -> bool {
        self.offset < other.extent() && other.offset < self.extent()
    }

    /// A piece that may be accepted: aligned, not empty, within the largest
    /// datagram, and whole blocks but for the final one.
    pub open spec fn admissible(self) -> bool {
        &&& 0 <= self.offset
        &&& self.offset % 8 == 0
        &&& self.payload.len() > 0
        &&& self.extent() <= MAX_DATAGRAM_BYTES
        &&& !self.last ==> self.payload.len() % 8 == 0
    }
}

/// The piece that a fragment is.
pub open spec fn piece_of(f: Fragment) -> Piece {
    Piece {
        offset: f.offset as int,
        payload: f.payload@,
        last: !f.more_fragments,
        headers: f.headers@,
        next_header_at: f.next_header_at,
    }
}

/// Whether some piece carries the byte at a place.
pub open spec fn covered(pieces: Seq<Piece>, at: int) -> bool {
    exists|i: int| 0 <= i < pieces.len() && (#[trigger] pieces[i]).covers(at)
}

/// The datagram's length, once its final fragment has arrived.
pub open spec fn declared(pieces: Seq<Piece>) -> Option<int> {
    if exists|i: int| 0 <= i < pieces.len() && (#[trigger] pieces[i]).last {
        Some(pieces[choose|i: int| 0 <= i < pieces.len() && (#[trigger] pieces[i]).last].extent())
    } else {
        None
    }
}

/// Whether a new piece carries bytes that an accepted one carries already.
pub open spec fn overlaps_any(pieces: Seq<Piece>, piece: Piece) -> bool {
    exists|i: int| 0 <= i < pieces.len() && (#[trigger] pieces[i]).overlaps(piece)
}

/// Whether some accepted piece reaches beyond a place.
pub open spec fn reaches_beyond(pieces: Seq<Piece>, at: int) -> bool {
    exists|i: int| 0 <= i < pieces.len() && (#[trigger] pieces[i]).extent() > at
}

/// Whether every byte of the datagram has arrived.
pub open spec fn is_whole(pieces: Seq<Piece>) -> bool {
    declared(pieces) matches Some(total) && forall|at: int| 0 <= at < total ==> #[trigger] covered(pieces, at)
}

/// The bytes of the datagram, each from the piece that carries it.
pub open spec fn assembled(pieces: Seq<Piece>) -> Seq<u8> {
    Seq::new(
        declared(pieces)->Some_0 as nat,
        |at: int|
            {
                let i = choose|i: int| 0 <= i < pieces.len() && (#[trigger] pieces[i]).covers(at);
                pieces[i].payload[at - pieces[i].offset]
            },
    )
}

/// The piece at offset zero, whose headers the datagram inherits.
pub open spec fn first_piece(pieces: Seq<Piece>) -> Piece {
    pieces[choose|i: int| 0 <= i < pieces.len() && (#[trigger] pieces[i]).offset == 0]
}

/// Whether the accepted pieces of a datagram fit together: each admissible, no
/// two overlapping, none beyond the declared end, one end at most.
pub open spec fn consistent(pieces: Seq<Piece>) -> bool {
    &&& forall|i: int| 0 <= i < pieces.len() ==> (#[trigger] pieces[i]).admissible()
    &&& forall|i: int, j: int|
        #![trigger pieces[i], pieces[j]]
        0 <= i < j < pieces.len() ==> !pieces[i].overlaps(pieces[j])
    &&& forall|i: int, j: int|
        #![trigger pieces[i], pieces[j]]
        0 <= i < pieces.len() && 0 <= j < pieces.len() && pieces[i].last ==> pieces[j].extent()
            <= pieces[i].extent()
}

/// What becomes of one more fragment of a datagram.
pub enum Verdict {
    /// Accepted; more data is required.
    Kept,
    /// It contradicts what was accepted: the datagram is lost.
    Poisoned,
    /// Accepted, and with it every byte has arrived.
    Whole,
}

/// The verdict on a fragment, given the accepted ones. It contradicts them
/// where it ends elsewhere than a known end says or reaches beyond it, where it
/// overlaps one of them, and where it declares an end before theirs.
pub open spec fn verdict_on(pieces: Seq<Piece>, piece: Piece) -> Verdict {
    if declared(pieces) matches Some(total) && ((piece.last && piece.extent() != total) || piece.extent() > total) {
        Verdict::Poisoned
    } else if overlaps_any(pieces, piece) {
        Verdict::Poisoned
    } else if piece.last && reaches_beyond(pieces, piece.extent()) {
        Verdict::Poisoned
    } else if is_whole(pieces.push(piece)) {
        Verdict::Whole
    } else {
        Verdict::Kept
    }
}

/// The 8-byte blocks that a piece touches.
pub open spec fn blocks_of(piece: Piece) -> Set<int> {
    set_int_range(piece.offset / 8, (piece.extent() - 1) / 8 + 1)
}

/// The blocks that accepted pieces touch.
pub open spec fn blocks(pieces: Seq<Piece>) -> Set<int>
    decreases pieces.len(),
{
    if pieces.len() == 0 {
        Set::empty()
    } else {
        blocks(pieces.drop_last()).union(blocks_of(pieces.last()))
    }
}

/// A block is touched if some piece touches it.
pub(crate) proof fn lemma_blocks(pieces: Seq<Piece>)
    ensures
        forall|b: int| #[trigger]
            blocks(pieces).contains(b) <==> exists|i: int|
                0 <= i < pieces.len() && blocks_of(#[trigger] pieces[i]).contains(b),
        blocks(pieces).finite(),
    decreases pieces.len(),
{
    if pieces.len() > 0 {
        let front = pieces.drop_last();
        lemma_blocks(front);
        lemma_int_range(pieces.last().offset / 8, (pieces.last().extent() - 1) / 8 + 1);
        assert forall|b: int| #[trigger] blocks(pieces).contains(b) <==> exists|i: int|
            0 <= i < pieces.len() && blocks_of(#[trigger] pieces[i]).contains(b) by {
            if blocks(front).contains(b) {
                let i = choose|i: int| 0 <= i < front.len() && blocks_of(#[trigger] front[i]).contains(b);
                assert(blocks_of(pieces[i]).contains(b));
            }
            if blocks_of(pieces.last()).contains(b) {
                assert(blocks_of(pieces[pieces.len() - 1]).contains(b));
            }
            if exists|i: int| 0 <= i < pieces.len() && blocks_of(#[trigger] pieces[i]).contains(b) {
                let i = choose|i: int| 0 <= i < pieces.len() && blocks_of(#[trigger] pieces[i]).contains(b);
                if i < front.len() {
                    assert(blocks_of(front[i]).contains(b));
                }
            }
        }
    }
}

/// Aligned pieces share a block exactly where they share a byte.
pub(crate) proof fn lemma_blocks_overlap(a: Piece, b: Piece)
    requires
        a.admissible(),
        b.admissible(),
    ensures
        a.overlaps(b) <==> exists|k: int| #[trigger] blocks_of(a).contains(k) && blocks_of(b).contains(k),
{
    if a.overlaps(b) {
        let at = if a.offset >= b.offset {
            a.offset
        } else {
            b.offset
        };
        assert(blocks_of(a).contains(at / 8));
        assert(blocks_of(b).contains(at / 8));
    }
    if exists|k: int| #[trigger] blocks_of(a).contains(k) && blocks_of(b).contains(k) {
        let k = choose|k: int| #[trigger] blocks_of(a).contains(k) && blocks_of(b).contains(k);
        assert(a.offset <= 8 * k < a.extent());
        assert(b.offset <= 8 * k < b.extent());
    }
}

/// The declared end is where the final piece ends, whichever it is.
pub(crate) proof fn lemma_declared(pieces: Seq<Piece>)
    requires
        consistent(pieces),
    ensures
        forall|i: int|
            0 <= i < pieces.len() && (#[trigger] pieces[i]).last ==> declared(pieces) == Some(pieces[i].extent()),
        declared(pieces) matches Some(total) ==> 0 < total <= MAX_DATAGRAM_BYTES && forall|i: int|
            0 <= i < pieces.len() ==> (#[trigger] pieces[i]).extent() <= total,
{
    if declared(pieces) is Some {
        let last = choose|i: int| 0 <= i < pieces.len() && (#[trigger] pieces[i]).last;
        assert(pieces[last].admissible());
        assert forall|i: int| 0 <= i < pieces.len() && (#[trigger] pieces[i]).last implies declared(pieces)
            == Some(pieces[i].extent()) by {
            assert(pieces[i].extent() <= pieces[last].extent());
            assert(pieces[last].extent() <= pieces[i].extent());
        }
        assert forall|i: int| 0 <= i < pieces.len() implies (#[trigger] pieces[i]).extent()
            <= pieces[last].extent() by {}
    } else {
        assert forall|i: int| 0 <= i < pieces.len() && (#[trigger] pieces[i]).last implies false by {}
    }
}

/// Once the end is known, every byte has arrived when every block is touched.
pub(crate) proof fn lemma_whole_is_counted(pieces: Seq<Piece>)
    requires
        consistent(pieces),
        declared(pieces) is Some,
    ensures
        blocks(pieces).len() <= (declared(pieces)->Some_0 + 7) / 8,
        is_whole(pieces) <==> blocks(pieces).len() == (declared(pieces)->Some_0 + 7) / 8,
{
    lemma_declared(pieces);
    lemma_blocks(pieces);
    let total = declared(pieces)->Some_0;
    let all = set_int_range(0, (total + 7) / 8);
    lemma_int_range(0, (total + 7) / 8);
    assert(blocks(pieces).subset_of(all)) by {
        assert forall|b: int| blocks(pieces).contains(b) implies all.contains(b) by {
            let i = choose|i: int| 0 <= i < pieces.len() && blocks_of(#[trigger] pieces[i]).contains(b);
            assert(pieces[i].admissible());
            assert(pieces[i].extent() <= total);
        }
    }
    lemma_len_subset(blocks(pieces), all);
    if is_whole(pieces) {
        assert(all.subset_of(blocks(pieces))) by {
            assert forall|b: int| all.contains(b) implies blocks(pieces).contains(b) by {
                assert(covered(pieces, 8 * b));
                let i = choose|i: int| 0 <= i < pieces.len() && (#[trigger] pieces[i]).covers(8 * b);
                assert(blocks_of(pieces[i]).contains(b));
            }
        }
        assert(blocks(pieces) =~= all);
    }
    if blocks(pieces).len() == (total + 7) / 8 {
        lemma_subset_equality(blocks(pieces), all);
        assert forall|at: int| 0 <= at < total implies #[trigger] covered(pieces, at) by {
            let b = at / 8;
            assert(all.contains(b));
            assert(blocks(pieces).contains(b));
            let i = choose|i: int| 0 <= i < pieces.len() && blocks_of(#[trigger] pieces[i]).contains(b);
            assert(pieces[i].admissible());
            if pieces[i].last {
                assert(pieces[i].extent() == total);
            }
            assert(pieces[i].covers(at));
        }
    }
}

/// A byte comes from the one piece that carries it.
pub(crate) proof fn lemma_assembled_at(pieces: Seq<Piece>, i: int, at: int)
    requires
        consistent(pieces),
        declared(pieces) is Some,
        0 <= i < pieces.len(),
        pieces[i].covers(at),
    ensures
        0 <= at < assembled(pieces).len(),
        assembled(pieces)[at] == pieces[i].payload[at - pieces[i].offset],
{
    lemma_declared(pieces);
    assert(pieces[i].admissible());
    let j = choose|j: int| 0 <= j < pieces.len() && (#[trigger] pieces[j]).covers(at);
    if i < j {
        assert(!pieces[i].overlaps(pieces[j]));
    } else if j < i {
        assert(!pieces[j].overlaps(pieces[i]));
    }
}

/// The order in which fragments arrive does not matter: the same pieces make
/// the same datagram.
pub proof fn order_of_arrival_does_not_matter(a: Seq<Piece>, b: Seq<Piece>)
    requires
        consistent(a),
        consistent(b),
        forall|p: Piece| #[trigger] a.contains(p) <==> b.contains(p),
    ensures
        is_whole(a) == is_whole(b),
        is_whole(a) ==> assembled(a) == assembled(b) && first_piece(a) == first_piece(b),
{
    lemma_declared(a);
    lemma_declared(b);
    assert forall|x: Seq<Piece>, y: Seq<Piece>|
        (x == a && y == b || x == b && y == a) && #[trigger] declared(x) is Some implies #[trigger] declared(y)
        == declared(x) by {
        let i = choose|i: int| 0 <= i < x.len() && (#[trigger] x[i]).last;
        assert(x.contains(x[i]));
        assert(y.contains(x[i]));
        let j = choose|j: int| 0 <= j < y.len() && y[j] == x[i];
        assert(y[j].last);
    }
    assert(declared(a) is Some ==> declared(b) == declared(a));
    assert(declared(b) is Some ==> declared(a) == declared(b));
    assert forall|x: Seq<Piece>, y: Seq<Piece>, at: int|
        (x == a && y == b || x == b && y == a) && #[trigger] covered(x, at) implies #[trigger] covered(y, at) by {
        let i = choose|i: int| 0 <= i < x.len() && (#[trigger] x[i]).covers(at);
        assert(x.contains(x[i]));
        assert(y.contains(x[i]));
        let j = choose|j: int| 0 <= j < y.len() && y[j] == x[i];
        assert(y[j].covers(at));
    }
    if is_whole(a) {
        let total = declared(a)->Some_0;
        assert forall|at: int| 0 <= at < total implies #[trigger] covered(b, at) by {
            assert(covered(a, at));
        }
        assert forall|at: int| 0 <= at < total implies assembled(a)[at] == assembled(b)[at] by {
            assert(covered(a, at));
            let i = choose|i: int| 0 <= i < a.len() && (#[trigger] a[i]).covers(at);
            assert(a.contains(a[i]));
            assert(b.contains(a[i]));
            let j = choose|j: int| 0 <= j < b.len() && b[j] == a[i];
            lemma_assembled_at(a, i, at);
            lemma_assembled_at(b, j, at);
        }
        assert(assembled(a) =~= assembled(b));
        lemma_whole_has_a_first(a);
        lemma_whole_has_a_first(b);
        let i = choose|i: int| 0 <= i < a.len() && (#[trigger] a[i]).offset == 0;
        assert(a.contains(a[i]));
        assert(b.contains(a[i]));
        let j = choose|j: int| 0 <= j < b.len() && b[j] == a[i];
        lemma_first_piece(b, j);
    }
    if is_whole(b) {
        let total = declared(b)->Some_0;
        assert forall|at: int| 0 <= at < total implies #[trigger] covered(a, at) by {
            assert(covered(b, at));
        }
    }
}

/// Whether a piece was cut out of a datagram where it says it was.
pub open spec fn cut_from(piece: Piece, datagram: Seq<u8>) -> bool {
    &&& 0 <= piece.offset
    &&& piece.extent() <= datagram.len()
    &&& piece.payload == datagram.subrange(piece.offset, piece.extent())
    &&& piece.last == (piece.extent() == datagram.len())
}

/// Reassembly undoes fragmentation: pieces of a datagram that are whole give
/// that datagram back, however it was cut.
pub proof fn reassembly_undoes_fragmentation(datagram: Seq<u8>, pieces: Seq<Piece>)
    requires
        is_whole(pieces),
        forall|i: int| 0 <= i < pieces.len() ==> cut_from(#[trigger] pieces[i], datagram),
    ensures
        assembled(pieces) == datagram,
{
    let last = choose|i: int| 0 <= i < pieces.len() && (#[trigger] pieces[i]).last;
    assert(cut_from(pieces[last], datagram));
    assert forall|at: int| 0 <= at < datagram.len() implies assembled(pieces)[at]
        == datagram[at] by {
        assert(covered(pieces, at));
        let i = choose|i: int| 0 <= i < pieces.len() && (#[trigger] pieces[i]).covers(at);
        assert(cut_from(pieces[i], datagram));
    }
    assert(assembled(pieces) =~= datagram);
}

/// A whole datagram has a piece at offset zero.
pub(crate) proof fn lemma_whole_has_a_first(pieces: Seq<Piece>)
    requires
        consistent(pieces),
        is_whole(pieces),
    ensures
        exists|i: int| 0 <= i < pieces.len() && (#[trigger] pieces[i]).offset == 0,
{
    lemma_declared(pieces);
    assert(covered(pieces, 0));
    let i = choose|i: int| 0 <= i < pieces.len() && (#[trigger] pieces[i]).covers(0);
    assert(pieces[i].admissible());
    assert(pieces[i].offset == 0);
}

/// There is only one piece at offset zero.
pub(crate) proof fn lemma_first_piece(pieces: Seq<Piece>, i: int)
    requires
        consistent(pieces),
        0 <= i < pieces.len(),
        pieces[i].offset == 0,
    ensures
        first_piece(pieces) == pieces[i],
{
    let j = choose|j: int| 0 <= j < pieces.len() && (#[trigger] pieces[j]).offset == 0;
    assert(pieces[i].admissible() && pieces[j].admissible());
    if i < j {
        assert(!pieces[i].overlaps(pieces[j]));
    } else if j < i {
        assert(!pieces[j].overlaps(pieces[i]));
    }
}

/// Accepting a piece that is not refused keeps the pieces consistent.
pub proof fn accepted_pieces_stay_consistent(pieces: Seq<Piece>, piece: Piece)
    requires
        consistent(pieces),
        piece.admissible(),
        !(verdict_on(pieces, piece) is Poisoned),
    ensures
        consistent(pieces.push(piece)),
{
    let after = pieces.push(piece);
    lemma_declared(pieces);
    assert forall|i: int, j: int|
        #![trigger after[i], after[j]]
        0 <= i < j < after.len() implies !after[i].overlaps(after[j]) by {
        if j < pieces.len() {
            assert(!pieces[i].overlaps(pieces[j]));
        } else {
            assert(!pieces[i].overlaps(piece));
        }
    }
    assert forall|i: int, j: int|
        #![trigger after[i], after[j]]
        0 <= i < after.len() && 0 <= j < after.len() && after[i].last implies after[j].extent()
        <= after[i].extent() by {
        if i < pieces.len() && j < pieces.len() {
            assert(pieces[i].last);
            assert(pieces[j].extent() <= pieces[i].extent());
        } else if i < pieces.len() {
            assert(pieces[i].last);
        } else if j < pieces.len() {
            assert(!(pieces[j].extent() > piece.extent()));
        }
    }
}

/// When pieces fit together, said of their bytes: each is aligned to eight, not empty,
/// within 65535 bytes and whole blocks but for a last one; no two share a byte; and none
/// reaches beyond a last one.
pub proof fn pieces_fit_where_no_byte_comes_twice(pieces: Seq<Piece>)
    ensures
        consistent(pieces) <==> {
            &&& forall|i: int|
                0 <= i < pieces.len() ==> 0 <= (#[trigger] pieces[i]).offset && pieces[i].offset % 8 == 0
                    && pieces[i].payload.len() > 0 && pieces[i].offset + pieces[i].payload.len() <= 65535 && (
                pieces[i].last || pieces[i].payload.len() % 8 == 0)
            &&& forall|i: int, j: int|
                #![trigger pieces[i], pieces[j]]
                0 <= i < j < pieces.len() ==> pieces[i].offset + pieces[i].payload.len() <= pieces[j].offset
                    || pieces[j].offset + pieces[j].payload.len() <= pieces[i].offset
            &&& forall|i: int, j: int|
                #![trigger pieces[i], pieces[j]]
                0 <= i < pieces.len() && 0 <= j < pieces.len() && pieces[i].last ==> pieces[j].offset
                    + pieces[j].payload.len() <= pieces[i].offset + pieces[i].payload.len()
        },
{
    if consistent(pieces) {
        assert forall|i: int| 0 <= i < pieces.len() implies 0 <= (#[trigger] pieces[i]).offset && pieces[i].offset % 8
            == 0 && pieces[i].payload.len() > 0 && pieces[i].offset + pieces[i].payload.len() <= 65535 && (
        pieces[i].last || pieces[i].payload.len() % 8 == 0) by {
            assert(pieces[i].admissible());
        }
        assert forall|i: int, j: int|
            #![trigger pieces[i], pieces[j]]
            0 <= i < j < pieces.len() implies pieces[i].offset + pieces[i].payload.len() <= pieces[j].offset
            || pieces[j].offset + pieces[j].payload.len() <= pieces[i].offset by {
            assert(!pieces[i].overlaps(pieces[j]));
        }
        assert forall|i: int, j: int|
            #![trigger pieces[i], pieces[j]]
            0 <= i < pieces.len() && 0 <= j < pieces.len() && pieces[i].last implies pieces[j].offset
            + pieces[j].payload.len() <= pieces[i].offset + pieces[i].payload.len() by {
            assert(pieces[j].extent() <= pieces[i].extent());
        }
    }
}

/// When pieces that fit together are whole, said of their bytes: one of them is the last,
/// and every place before its end is carried by one of them.
pub proof fn pieces_are_whole_when_every_byte_came(pieces: Seq<Piece>, e: int)
    requires
        consistent(pieces),
    ensures
        0 <= e < pieces.len() && pieces[e].last ==> (is_whole(pieces) <==> forall|at: int|
            0 <= at < pieces[e].offset + pieces[e].payload.len() ==> #[trigger] carries(pieces, at)),
        (forall|i: int| 0 <= i < pieces.len() ==> !(#[trigger] pieces[i]).last) ==> !is_whole(pieces),
{
    lemma_declared(pieces);
    assert forall|at: int| #[trigger] carries(pieces, at) == covered(pieces, at) by {
        if covered(pieces, at) {
            let i = choose|i: int| 0 <= i < pieces.len() && (#[trigger] pieces[i]).covers(at);
            assert(pieces[i].offset <= at < pieces[i].offset + pieces[i].payload.len());
        }
        if carries(pieces, at) {
            let i = choose|i: int|
                0 <= i < pieces.len() && (#[trigger] pieces[i]).offset <= at < pieces[i].offset
                    + pieces[i].payload.len();
            assert(pieces[i].covers(at));
        }
    }
    if 0 <= e < pieces.len() && pieces[e].last {
        assert(declared(pieces) == Some(pieces[e].extent()));
        if is_whole(pieces) {
            assert forall|at: int| 0 <= at < pieces[e].offset + pieces[e].payload.len() implies #[trigger] carries(
                pieces,
                at,
            ) by {
                assert(covered(pieces, at));
            }
        }
        if forall|at: int| 0 <= at < pieces[e].offset + pieces[e].payload.len() ==> #[trigger] carries(pieces, at) {
            assert forall|at: int| 0 <= at < pieces[e].extent() implies #[trigger] covered(pieces, at) by {
                assert(carries(pieces, at));
            }
        }
    }
}

/// Whether a place is carried by one of the pieces.
pub open spec fn carries(pieces: Seq<Piece>, at: int) -> bool {
    exists|i: int|
        0 <= i < pieces.len() && (#[trigger] pieces[i]).offset <= at < pieces[i].offset + pieces[i].payload.len()
}

/// A fragment is a piece of its datagram: at its offset, with its payload and headers, and
/// the last exactly if no more follow.
pub proof fn a_fragment_is_a_piece_of_its_datagram(f: Fragment)
    ensures
        piece_of(f).offset == f.offset,
        piece_of(f).payload == f.payload@,
        piece_of(f).last == !f.more_fragments,
        piece_of(f).headers == f.headers@,
        piece_of(f).next_header_at == f.next_header_at,
{
}

} // verus!
