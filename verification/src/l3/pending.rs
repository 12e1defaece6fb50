//! One datagram on its way to being whole.

use vstd::prelude::*;
use vstd::set_lib::*;
#[allow(unused_imports)]
use crate::l3::fragment;
#[allow(unused_imports)]
use crate::l3::reassembly;

use crate::clock::Instant;
use crate::l3::fragment::rebuild;
use crate::l3::fragment::Fragment;
use crate::l3::reassembly::{Piece, Verdict, BITMAP_WORDS, MAX_DATAGRAM_BYTES};

verus! {

/// Whether a block is marked in a bitmap.
pub open spec fn marked(words: Seq<u64>, block: int) -> bool {
    (words[block / 64] >> ((block % 64) as u64)) & 1 == 1
}

proof fn lemma_set_bit(word: u64, s: u64, t: u64)
    by (bit_vector)
    requires
        s < 64,
        t < 64,
    ensures
        (((word | (1u64 << s)) >> t) & 1 == 1) <==> (s == t || (word >> t) & 1 == 1),
{
}

proof fn lemma_zero_bit(t: u64)
    by (bit_vector)
    requires
        t < 64,
    ensures
        (0u64 >> t) & 1 != 1,
{
}

/// The bytes received so far, and when the datagram expires.
pub struct Pending {
    /// Data up to the largest extent seen; the final fragment supplies total.
    data: Vec<u8>,
    /// One bit per 8-byte block.
    received: Vec<u64>,
    /// Received block count for constant-time completion checks.
    received_blocks: usize,
    total: Option<usize>,
    poisoned: bool,
    /// Inherited headers and IPv6 Next Header splice position.
    headers: Vec<u8>,
    next_header_at: Option<usize>,
    /// The fragments accepted so far.
    pieces: Ghost<Seq<Piece>>,
    /// Deadline compared with the clock.
    deadline: Instant,
    /// Where the expiry index holds this datagram. Refreshes change the
    /// deadline but leave the slot until expiry files it anew.
    slot: Instant,
}

/// What a pending datagram is: the fragments accepted for it, unless it is
/// lost, and when it expires.
#[verifier::ext_equal]
pub struct Partial {
    pub pieces: Seq<Piece>,
    pub poisoned: bool,
    pub deadline: Instant,
    pub slot: Instant,
}

impl View for Pending {
    type V = Partial;

    closed spec fn view(&self) -> Partial {
        Partial {
            pieces: if self.poisoned {
                Seq::empty()
            } else {
                self.pieces@
            },
            poisoned: self.poisoned,
            deadline: self.deadline,
            slot: self.slot,
        }
    }
}

impl Pending {
    /// The bytes, the bitmap and the rest hold what the accepted fragments
    /// brought.
    pub closed spec fn wf(&self) -> bool {
        &&& self.received@.len() == BITMAP_WORDS
        &&& !self.poisoned ==> self.holds(self.pieces@)
    }

    spec fn holds(&self, pieces: Seq<Piece>) -> bool {
        &&& reassembly::consistent(pieces)
        &&& self.data@.len() <= MAX_DATAGRAM_BYTES
        &&& forall|i: int| 0 <= i < pieces.len() ==> (#[trigger] pieces[i]).extent() <= self.data@.len()
        &&& self.data@.len() > 0 ==> exists|i: int|
            0 <= i < pieces.len() && (#[trigger] pieces[i]).extent() == self.data@.len()
        &&& forall|i: int, at: int|
            0 <= i < pieces.len() && #[trigger] pieces[i].covers(at) ==> self.data@[at] == pieces[i].payload[at
                - pieces[i].offset]
        &&& forall|b: int|
            0 <= b < 8192 ==> (#[trigger] marked(self.received@, b) <==> reassembly::blocks(pieces).contains(b))
        &&& self.received_blocks == reassembly::blocks(pieces).len()
        &&& match self.total {
            Some(t) => reassembly::declared(pieces) == Some(t as int),
            None => reassembly::declared(pieces) is None,
        }
        &&& forall|i: int|
            0 <= i < pieces.len() && (#[trigger] pieces[i]).offset == 0 ==> self.headers@ == pieces[i].headers
                && self.next_header_at == pieces[i].next_header_at
        &&& forall|i: int|
            0 <= i < pieces.len() && (#[trigger] pieces[i]).next_header_at is None
                ==> fragment::is_whole_ipv4_header(pieces[i].headers)
    }

    pub fn new(deadline: Instant) -> (p: Self)
        ensures
            p.wf(),
            p@ == (Partial { pieces: Seq::empty(), poisoned: false, deadline, slot: deadline }),
    {
        let mut received: Vec<u64> = Vec::new();
        let mut n: usize = 0;
        while n < BITMAP_WORDS
            invariant
                n <= BITMAP_WORDS,
                received@.len() == n,
                forall|i: int| 0 <= i < n ==> #[trigger] received@[i] == 0,
            decreases BITMAP_WORDS - n,
        {
            received.push(0);
            n = n + 1;
        }
        proof {
            assert forall|b: int| 0 <= b < 8192 implies !#[trigger] marked(received@, b) by {
                lemma_zero_bit((b % 64) as u64);
            }
            assert(reassembly::blocks(Seq::<Piece>::empty()) =~= Set::empty());
        }
        Pending {
            data: Vec::new(),
            received,
            received_blocks: 0,
            total: None,
            poisoned: false,
            headers: Vec::new(),
            next_header_at: None,
            pieces: Ghost(Seq::empty()),
            deadline,
            slot: deadline,
        }
    }

    pub fn deadline(&self) -> (t: Instant)
        ensures
            t == self@.deadline,
    {
        self.deadline
    }

    /// When the index looks at it.
    pub fn slot(&self) -> (t: Instant)
        ensures
            t == self@.slot,
    {
        self.slot
    }

    /// Refreshes the deadline without moving the slot.
    pub fn refresh(&mut self, deadline: Instant)
        requires
            old(self).wf(),
        ensures
            final(self).wf(),
            final(self)@ == (Partial { deadline, ..old(self)@ }),
    {
        self.deadline = deadline;
    }

    /// Moves the slot to the current deadline.
    pub fn refile(&mut self)
        requires
            old(self).wf(),
        ensures
            final(self).wf(),
            final(self)@ == (Partial { slot: old(self)@.deadline, ..old(self)@ }),
    {
        self.slot = self.deadline;
    }

    pub fn is_poisoned(&self) -> (r: bool)
        ensures
            r == self@.poisoned,
    {
        self.poisoned
    }

    /// Whether any of the blocks from `first` to `last` is marked.
    fn any_received(&self, first: usize, last: usize) -> (r: bool)
        requires
            self.received@.len() == BITMAP_WORDS,
            first <= last < 8192,
        ensures
            r == exists|b: int| first <= b <= last && #[trigger] marked(self.received@, b),
    {
        let mut b: usize = first;
        while b <= last
            invariant
                self.received@.len() == BITMAP_WORDS,
                first <= b <= last + 1,
                last < 8192,
                forall|c: int| first <= c < b ==> !#[trigger] marked(self.received@, c),
            decreases last + 1 - b,
        {
            if (self.received[b / 64] >> ((b % 64) as u64)) & 1 == 1 {
                assert(marked(self.received@, b as int));
                return true;
            }
            assert(!marked(self.received@, b as int));
            b = b + 1;
        }
        false
    }

    /// Marks the blocks from `first` to `last`.
    fn mark_received(received: &mut Vec<u64>, first: usize, last: usize)
        requires
            old(received)@.len() == BITMAP_WORDS,
            first <= last < 8192,
        ensures
            final(received)@.len() == BITMAP_WORDS,
            forall|b: int|
                0 <= b < 8192 ==> (#[trigger] marked(final(received)@, b) <==> marked(old(received)@, b) || first
                    <= b <= last),
    {
        let mut b: usize = first;
        while b <= last
            invariant
                received@.len() == BITMAP_WORDS,
                first <= b <= last + 1,
                last < 8192,
                forall|c: int|
                    0 <= c < 8192 ==> (#[trigger] marked(received@, c) <==> marked(old(received)@, c) || first <= c
                        < b),
            decreases last + 1 - b,
        {
            let w: usize = b / 64;
            let s: u64 = (b % 64) as u64;
            let word: u64 = received[w];
            let ghost before = received@;
            received.set(w, word | (1u64 << s));
            proof {
                assert forall|c: int| 0 <= c < 8192 implies (#[trigger] marked(received@, c) <==> marked(
                    before,
                    c,
                ) || c == b) by {
                    if c / 64 == w {
                        lemma_set_bit(word, s, (c % 64) as u64);
                        assert(c == b <==> c % 64 == b % 64);
                    }
                }
            }
            b = b + 1;
        }
    }

    /// Takes one more fragment in.
    pub fn absorb(&mut self, f: &Fragment) -> (v: Verdict)
        requires
            old(self).wf(),
            !old(self)@.poisoned,
            f.wf(),
            reassembly::piece_of(*f).admissible(),
        ensures
            final(self).wf(),
            v == reassembly::verdict_on(old(self)@.pieces, reassembly::piece_of(*f)),
            v is Poisoned ==> final(self)@ == (Partial {
                pieces: Seq::empty(),
                poisoned: true,
                ..old(self)@
            }),
            !(v is Poisoned) ==> final(self)@ == (Partial {
                pieces: old(self)@.pieces.push(reassembly::piece_of(*f)),
                ..old(self)@
            }),
    {
        let ghost pieces = self.pieces@;
        let ghost piece = reassembly::piece_of(*f);
        let offset: usize = f.offset as usize;
        let extent: usize = offset + f.payload.len();
        proof {
            reassembly::lemma_declared(pieces);
        }
        if let Some(total) = self.total {
            if (!f.more_fragments && extent != total) || extent > total {
                self.poisoned = true;
                return Verdict::Poisoned;
            }
        }
        // RFC 5722: any overlap discards the whole datagram, for both
        // families. Identical retransmits are the only overlap a benign path
        // produces, and they are discarded with the rest, which is safe: the
        // sender will retry from a clean key.
        let first: usize = offset / 8;
        let last: usize = (extent - 1) / 8;
        let overlapped = self.any_received(first, last);
        proof {
            reassembly::lemma_blocks(pieces);
            assert(overlapped <==> reassembly::overlaps_any(pieces, piece)) by {
                if overlapped {
                    let b = choose|b: int| first <= b <= last && #[trigger] marked(self.received@, b);
                    assert(reassembly::blocks(pieces).contains(b));
                    let i = choose|i: int|
                        0 <= i < pieces.len() && reassembly::blocks_of(#[trigger] pieces[i]).contains(b);
                    assert(reassembly::blocks_of(piece).contains(b));
                    reassembly::lemma_blocks_overlap(pieces[i], piece);
                }
                if reassembly::overlaps_any(pieces, piece) {
                    let i = choose|i: int| 0 <= i < pieces.len() && (#[trigger] pieces[i]).overlaps(piece);
                    reassembly::lemma_blocks_overlap(pieces[i], piece);
                    let b = choose|b: int| #[trigger]
                        reassembly::blocks_of(pieces[i]).contains(b) && reassembly::blocks_of(piece).contains(b);
                    assert(reassembly::blocks(pieces).contains(b));
                    assert(marked(self.received@, b));
                }
            }
        }
        if overlapped {
            self.poisoned = true;
            return Verdict::Poisoned;
        }
        // The final fragment fixes the datagram's length, so a byte already
        // received beyond it contradicts the declaration exactly as a later
        // fragment past a known total does.
        proof {
            assert(self.data@.len() > extent <==> reassembly::reaches_beyond(pieces, extent as int));
        }
        if !f.more_fragments && self.data.len() > extent {
            self.poisoned = true;
            return Verdict::Poisoned;
        }
        let ghost was = *self;
        let ghost after = pieces.push(piece);
        if offset == 0 {
            // RFC 791 and RFC 8200 both name the fragment at offset zero as the
            // one whose headers the reassembled datagram inherits.
            let mut headers: Vec<u8> = Vec::new();
            headers.extend_from_slice(f.headers);
            assert(headers@ =~= f.headers@);
            self.headers = headers;
            self.next_header_at = f.next_header_at;
        }
        if extent > self.data.len() {
            self.data.resize(extent, 0);
        }
        let ghost grown = self.data@;
        let mut i: usize = 0;
        let n: usize = f.payload.len();
        while i < n
            invariant
                i <= n,
                n == f.payload@.len(),
                extent == offset + n,
                offset + n <= self.data@.len(),
                self.data@.len() == grown.len(),
                forall|j: int| 0 <= j < i ==> self.data@[offset + j] == #[trigger] f.payload@[j],
                forall|j: int|
                    0 <= j < grown.len() && !(offset <= j < offset + n) ==> #[trigger] self.data@[j] == grown[j],
                self.received == was.received,
                self.received_blocks == was.received_blocks,
                self.total == was.total,
                self.poisoned == was.poisoned,
                self.pieces == was.pieces,
                self.deadline == was.deadline,
                self.slot == was.slot,
                offset == 0 ==> self.headers@ == f.headers@ && self.next_header_at == f.next_header_at,
                offset != 0 ==> self.headers == was.headers && self.next_header_at == was.next_header_at,
            decreases n - i,
        {
            self.data.set(offset + i, f.payload[i]);
            i = i + 1;
        }
        Self::mark_received(&mut self.received, first, last);
        proof {
            lemma_int_range(first as int, last + 1);
            reassembly::lemma_blocks(pieces);
            assert(after.drop_last() =~= pieces);
            let mine = reassembly::blocks_of(piece);
            assert(reassembly::blocks(pieces).disjoint(mine)) by {
                assert forall|b: int| !(reassembly::blocks(pieces).contains(b) && mine.contains(b)) by {
                    if reassembly::blocks(pieces).contains(b) && mine.contains(b) {
                        let i = choose|i: int|
                            0 <= i < pieces.len() && reassembly::blocks_of(#[trigger] pieces[i]).contains(b);
                        reassembly::lemma_blocks_overlap(pieces[i], piece);
                        assert(pieces[i].overlaps(piece));
                    }
                }
            }
            lemma_set_disjoint_lens(reassembly::blocks(pieces), mine);
            assert(reassembly::blocks(after) =~= reassembly::blocks(pieces).union(mine));
            assert(reassembly::blocks(after).len() <= 8192) by {
                let all = set_int_range(0, 8192);
                lemma_int_range(0, 8192);
                reassembly::lemma_blocks(after);
                assert(reassembly::blocks(after).subset_of(all)) by {
                    assert forall|b: int| reassembly::blocks(after).contains(b) implies all.contains(b) by {
                        let i = choose|i: int|
                            0 <= i < after.len() && reassembly::blocks_of(#[trigger] after[i]).contains(b);
                        if i < pieces.len() {
                            assert(pieces[i].admissible());
                        }
                    }
                }
                lemma_len_subset(reassembly::blocks(after), all);
            }
        }
        self.received_blocks = self.received_blocks + (last - first + 1);
        if !f.more_fragments {
            self.total = Some(extent);
        }
        self.pieces = Ghost(after);
        proof {
            assert(!(reassembly::verdict_on(pieces, piece) is Poisoned));
            reassembly::accepted_pieces_stay_consistent(pieces, piece);
            reassembly::lemma_declared(after);
            self.lemma_absorbed(was, pieces, piece, grown);
        }
        match self.total {
            Some(total) => {
                proof {
                    reassembly::lemma_whole_is_counted(after);
                }
                if self.received_blocks == (total + 7) / 8 {
                    Verdict::Whole
                } else {
                    Verdict::Kept
                }
            },
            None => Verdict::Kept,
        }
    }

    /// After a piece was written and marked, everything holds what the longer
    /// list of pieces brought.
    proof fn lemma_absorbed(&self, was: Pending, pieces: Seq<Piece>, piece: Piece, grown: Seq<u8>)
        requires
            was.holds(pieces),
            piece.admissible(),
            piece.next_header_at is None ==> fragment::is_whole_ipv4_header(piece.headers),
            reassembly::consistent(pieces.push(piece)),
            self.data@.len() == grown.len(),
            grown.len() == (if piece.extent() > was.data@.len() {
                piece.extent()
            } else {
                was.data@.len() as int
            }),
            forall|j: int| 0 <= j < was.data@.len() ==> #[trigger] grown[j] == was.data@[j],
            forall|j: int| 0 <= j < piece.payload.len() ==> self.data@[piece.offset + j] == #[trigger] piece.payload[j],
            forall|j: int| 0 <= j < grown.len() && !piece.covers(j) ==> #[trigger] self.data@[j] == grown[j],
            forall|b: int|
                0 <= b < 8192 ==> (#[trigger] marked(self.received@, b) <==> marked(was.received@, b)
                    || piece.offset / 8 <= b <= (piece.extent() - 1) / 8),
            reassembly::blocks(pieces.push(piece)) == reassembly::blocks(pieces).union(
                reassembly::blocks_of(piece),
            ),
            self.received_blocks == reassembly::blocks(pieces.push(piece)).len(),
            self.total == (if piece.last {
                Some(piece.extent() as usize)
            } else {
                was.total
            }),
            piece.offset == 0 ==> self.headers@ == piece.headers && self.next_header_at == piece.next_header_at,
            piece.offset != 0 ==> self.headers@ == was.headers@ && self.next_header_at == was.next_header_at,
        ensures
            self.holds(pieces.push(piece)),
    {
        let after = pieces.push(piece);
        let n = pieces.len() as int;
        assert(after[n] == piece);
        assert forall|i: int| 0 <= i < n implies after[i] == pieces[i] by {}
        assert forall|i: int| 0 <= i < after.len() implies (#[trigger] after[i]).extent() <= self.data@.len() by {
            if i < n {
                assert(pieces[i].extent() <= was.data@.len());
            }
        }
        assert(exists|i: int| 0 <= i < after.len() && (#[trigger] after[i]).extent() == self.data@.len()) by {
            if piece.extent() > was.data@.len() {
                assert(after[n].extent() == self.data@.len());
            } else {
                let i = choose|i: int|
                    0 <= i < pieces.len() && (#[trigger] pieces[i]).extent() == was.data@.len();
                assert(after[i].extent() == self.data@.len());
            }
        }
        assert forall|i: int, at: int| 0 <= i < after.len() && #[trigger] after[i].covers(at) implies self.data@[at]
            == after[i].payload[at - after[i].offset] by {
            if i < n {
                assert(!after[i].overlaps(after[n]));
                assert(pieces[i].covers(at));
                assert(pieces[i].admissible());
                assert(!piece.covers(at));
                assert(pieces[i].extent() <= was.data@.len());
                assert(self.data@[at] == grown[at]);
                assert(grown[at] == was.data@[at]);
            } else {
                assert(self.data@[piece.offset + (at - piece.offset)] == piece.payload[at - piece.offset]);
            }
        }
        reassembly::lemma_declared(after);
        reassembly::lemma_declared(pieces);
        if piece.last {
            assert(after[n].last);
        } else {
            if reassembly::declared(after) is Some {
                let i = choose|i: int| 0 <= i < after.len() && (#[trigger] after[i]).last;
                assert(pieces[i].last);
            }
            if reassembly::declared(pieces) is Some {
                let i = choose|i: int| 0 <= i < pieces.len() && (#[trigger] pieces[i]).last;
                assert(after[i].last);
            }
        }
        assert forall|i: int| 0 <= i < after.len() && (#[trigger] after[i]).offset == 0 implies self.headers@
            == after[i].headers && self.next_header_at == after[i].next_header_at by {
            if i < n {
                assert(pieces[i].offset == 0);
                if piece.offset == 0 {
                    assert(!after[i].overlaps(after[n]));
                    assert(pieces[i].admissible());
                }
            }
        }
        assert forall|i: int| 0 <= i < after.len() && (#[trigger] after[i]).next_header_at is None implies fragment::is_whole_ipv4_header(
            after[i].headers,
        ) by {
            if i < n {
                assert(pieces[i].next_header_at is None);
            }
        }
    }

    /// Rebuilds the packet of a whole datagram.
    pub fn rebuilt(self, protocol: u8) -> (r: Option<Vec<u8>>)
        requires
            self.wf(),
            !self@.poisoned,
            reassembly::is_whole(self@.pieces),
        ensures
            ({
                let pieces = self@.pieces;
                let first = reassembly::first_piece(pieces);
                let packet = fragment::rebuilt(
                    first.headers,
                    first.next_header_at,
                    protocol,
                    reassembly::assembled(pieces),
                );
                match r {
                    Some(bytes) => packet == Some(bytes@),
                    None => packet is None,
                }
            }),
    {
        proof {
            let pieces = self@.pieces;
            reassembly::lemma_declared(pieces);
            reassembly::lemma_whole_has_a_first(pieces);
            let i = choose|i: int| 0 <= i < pieces.len() && (#[trigger] pieces[i]).offset == 0;
            reassembly::lemma_first_piece(pieces, i);
            let total = reassembly::declared(pieces)->Some_0;
            let l = choose|l: int| 0 <= l < pieces.len() && (#[trigger] pieces[l]).last;
            assert(self.data@.len() == total) by {
                assert(pieces[l].extent() == total);
                assert(pieces[l].admissible());
                let m = choose|m: int|
                    0 <= m < pieces.len() && (#[trigger] pieces[m]).extent() == self.data@.len();
                assert(pieces[m].extent() <= total);
            }
            assert(self.data@ =~= reassembly::assembled(pieces)) by {
                assert forall|at: int| 0 <= at < total implies self.data@[at] == reassembly::assembled(pieces)[at] by {
                    assert(reassembly::covered(pieces, at));
                    let j = choose|j: int| 0 <= j < pieces.len() && (#[trigger] pieces[j]).covers(at);
                    reassembly::lemma_assembled_at(pieces, j, at);
                }
            }
        }
        rebuild(&self.headers, self.next_header_at, protocol, &self.data)
    }
}

} // verus!
