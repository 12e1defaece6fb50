//! Moving bytes between a terminated connection and the task that serves it.
//!
//! A direction stops where its destination is full and goes on with the next
//! sweep: bytes wait, and the peer's window closes, but none is lost.

use vstd::prelude::*;
use vstd::slice::slice_subrange;

use crate::clock::Instant;
use crate::fields::bytes_of;
use crate::l4::stream::StreamError;

verus! {

/// What is done with the outcome of a read.
#[derive(Clone, Copy, Debug, PartialEq, Eq, Structural)]
pub enum Inward {
    /// So many bytes go to the task, and the next read follows.
    Deliver(usize),
    /// The sweep is over for this direction.
    Stop,
    /// The peer finished; the task reads to the end.
    Finish,
    /// The peer reset the connection; the task is told.
    Reset,
}

/// What the task has for the client.
#[derive(Debug, PartialEq, Eq)]
pub enum Queued {
    Chunk(Vec<u8>),
    Empty,
    /// The task is done, and everything it had was taken.
    Disconnected,
}

/// What is done next for the client.
#[derive(Debug, PartialEq, Eq)]
pub enum Outward {
    Send(Vec<u8>),
    Stop,
    /// The connection is closed.
    Close,
}

/// One connection between the client and the task that serves it.
#[derive(Debug, PartialEq, Eq)]
pub struct Plumbing {
    /// Whether the task still reads.
    pub reads: bool,
    /// What was taken from the task and not written yet.
    pub pending: Option<Vec<u8>>,
    /// Whether the connection was closed for the task.
    pub finished: bool,
}

impl Plumbing {
    pub fn new() -> (r: Self)
        ensures
            r.reads,
            r.pending is None,
            !r.finished,
    {
        Plumbing { reads: true, pending: None, finished: false }
    }

    /// Takes the outcome of a read for which the task had room.
    pub fn read(&mut self, outcome: Result<usize, StreamError>) -> (r: Inward)
        ensures
            r == (match outcome {
                Ok(n) => if n == 0 {
                    Inward::Stop
                } else {
                    Inward::Deliver(n)
                },
                Err(StreamError::WouldBlock) => Inward::Stop,
                Err(StreamError::Closed) => Inward::Finish,
                Err(StreamError::Unknown) => Inward::Finish,
                Err(StreamError::Reset) => Inward::Reset,
            }),
            final(self).reads == (old(self).reads && !(r is Finish) && !(r is Reset)),
            final(self).pending == old(self).pending,
            final(self).finished == old(self).finished,
    {
        match outcome {
            Ok(n) => {
                if n == 0 {
                    Inward::Stop
                } else {
                    Inward::Deliver(n)
                }
            },
            Err(StreamError::WouldBlock) => Inward::Stop,
            Err(StreamError::Reset) => {
                self.reads = false;
                Inward::Reset
            },
            Err(_) => {
                self.reads = false;
                Inward::Finish
            },
        }
    }

    /// What waits from an earlier sweep; it goes first.
    pub fn take_pending(&mut self) -> (r: Option<Vec<u8>>)
        ensures
            r == old(self).pending,
            final(self).pending is None,
            final(self).reads == old(self).reads,
            final(self).finished == old(self).finished,
    {
        let mut r: Option<Vec<u8>> = None;
        std::mem::swap(&mut r, &mut self.pending);
        r
    }

    /// Takes what the task has. A connection is closed once, and only when
    /// nothing is left to write.
    pub fn next(&mut self, queued: Queued) -> (r: Outward)
        ensures
            final(self).reads == old(self).reads,
            final(self).pending == old(self).pending,
            match queued {
                Queued::Chunk(chunk) => r == Outward::Send(chunk) && final(self).finished == old(self).finished,
                Queued::Empty => r == Outward::Stop && final(self).finished == old(self).finished,
                Queued::Disconnected => final(self).finished && r == (if old(self).finished {
                    Outward::Stop
                } else {
                    Outward::Close
                }),
            },
    {
        match queued {
            Queued::Chunk(chunk) => Outward::Send(chunk),
            Queued::Empty => Outward::Stop,
            Queued::Disconnected => {
                if self.finished {
                    Outward::Stop
                } else {
                    self.finished = true;
                    Outward::Close
                }
            },
        }
    }

    /// Takes the outcome of writing a chunk; says whether the sweep goes on.
    /// What was not written waits.
    pub fn wrote(&mut self, chunk: Vec<u8>, outcome: Result<usize, StreamError>) -> (r: bool)
        requires
            old(self).pending is None,
        ensures
            final(self).reads == old(self).reads,
            final(self).finished == old(self).finished,
            match final(self).pending {
                Some(rest) => left_of(chunk@, outcome) == Some(rest@),
                None => left_of(chunk@, outcome) is None,
            },
            r == (outcome is Ok && left_of(chunk@, outcome) is None),
    {
        match outcome {
            Ok(n) => {
                if n < chunk.len() {
                    let rest: &[u8] = slice_subrange(chunk.as_slice(), n, chunk.len());
                    assert(rest@ =~= chunk@.skip(n as int));
                    self.pending = Some(bytes_of(rest));
                    false
                } else {
                    true
                }
            },
            Err(StreamError::WouldBlock) => {
                self.pending = Some(chunk);
                false
            },
            Err(_) => false,
        }
    }
}

/// What a write sent of a chunk.
pub open spec fn sent_of(chunk: Seq<u8>, outcome: Result<usize, StreamError>) -> Seq<u8> {
    match outcome {
        Ok(n) => if n < chunk.len() {
            chunk.take(n as int)
        } else {
            chunk
        },
        Err(_) => seq![],
    }
}

/// What waits of a chunk after a write.
pub open spec fn left_of(chunk: Seq<u8>, outcome: Result<usize, StreamError>) -> Option<Seq<u8>> {
    match outcome {
        Ok(n) => if n < chunk.len() {
            Some(chunk.skip(n as int))
        } else {
            None
        },
        Err(StreamError::WouldBlock) => Some(chunk),
        Err(_) => None,
    }
}

/// Chunks one after the other.
pub open spec fn joined(chunks: Seq<Seq<u8>>) -> Seq<u8>
    decreases chunks.len(),
{
    if chunks.len() == 0 {
        seq![]
    } else {
        joined(chunks.drop_last()) + chunks.last()
    }
}

/// One direction of a connection: what the client was sent, what waits, and how
/// many chunks of the task were taken.
pub struct Line {
    pub sent: Seq<u8>,
    pub waiting: Option<Seq<u8>>,
    pub taken: int,
}

/// The line after these writes. Each is of what waits, or else of the task's
/// next chunk.
pub open spec fn line_after(
    chunks: Seq<Seq<u8>>,
    outcomes: Seq<Result<usize, StreamError>>,
) -> Line
    decreases outcomes.len(),
{
    if outcomes.len() == 0 {
        Line { sent: seq![], waiting: None, taken: 0 }
    } else {
        let before = line_after(chunks, outcomes.drop_last());
        let (chunk, taken) = match before.waiting {
            Some(chunk) => (chunk, before.taken),
            None => (chunks[before.taken], before.taken + 1),
        };
        Line {
            sent: before.sent + sent_of(chunk, outcomes.last()),
            waiting: left_of(chunk, outcomes.last()),
            taken,
        }
    }
}

/// What waits, as bytes.
pub open spec fn waiting_bytes(line: Line) -> Seq<u8> {
    match line.waiting {
        Some(bytes) => bytes,
        None => seq![],
    }
}

/// A slow client costs nothing but time: while the connection lives, what was
/// sent and what waits are together exactly what was taken from the task, in
/// its order.
pub proof fn a_slow_client_loses_nothing(
    chunks: Seq<Seq<u8>>,
    outcomes: Seq<Result<usize, StreamError>>,
)
    requires
        line_after(chunks, outcomes).taken <= chunks.len(),
        forall|i: int|
            0 <= i < outcomes.len() ==> (#[trigger] outcomes[i] is Ok || outcomes[i] == Err::<
                usize,
                StreamError,
            >(StreamError::WouldBlock)),
    ensures
        ({
            let line = line_after(chunks, outcomes);
            0 <= line.taken && line.sent + waiting_bytes(line) == joined(chunks.take(line.taken))
        }),
    decreases outcomes.len(),
{
    let line = line_after(chunks, outcomes);
    if outcomes.len() == 0 {
        assert(line.sent + waiting_bytes(line) =~= joined(chunks.take(0)));
    } else {
        let before = line_after(chunks, outcomes.drop_last());
        assert forall|i: int| 0 <= i < outcomes.drop_last().len() implies (
        #[trigger] outcomes.drop_last()[i] is Ok || outcomes.drop_last()[i] == Err::<
            usize,
            StreamError,
        >(StreamError::WouldBlock)) by {
            assert(outcomes.drop_last()[i] == outcomes[i]);
        }
        a_slow_client_loses_nothing(chunks, outcomes.drop_last());
        let outcome = outcomes[outcomes.len() - 1];
        assert(outcome == outcomes.last());
        match before.waiting {
            Some(chunk) => {
                assert(sent_of(chunk, outcome) + waiting_bytes(line) =~= chunk);
                assert(line.sent + waiting_bytes(line) =~= before.sent + chunk);
            },
            None => {
                let chunk = chunks[before.taken];
                assert(sent_of(chunk, outcome) + waiting_bytes(line) =~= chunk);
                let more = chunks.take(before.taken + 1);
                assert(more.drop_last() =~= chunks.take(before.taken));
                assert(more.last() == chunk);
                assert(before.sent + waiting_bytes(before) =~= before.sent);
                assert(line.sent + waiting_bytes(line) =~= before.sent + chunk);
            },
        }
    }
}

/// A quarter of a second, in nanoseconds.
pub const IDLE_NANOS: u128 = 250_000_000;

/// Five milliseconds, in nanoseconds.
pub const STARVED_NANOS: u128 = 5_000_000;

/// When the terminator wakes: at the stack's deadline, or soon where it has
/// none; and not at once where no buffer is left to send with.
pub fn next_wake(deadline: Option<Instant>, now: Instant, available: usize) -> (r: Instant)
    requires
        now.nanos + IDLE_NANOS <= u128::MAX,
    ensures
        ({
            let armed = match deadline {
                Some(at) => at.nanos as int,
                None => now.nanos + IDLE_NANOS,
            };
            r.nanos == (if available == 0 && armed < now.nanos + STARVED_NANOS {
                now.nanos + STARVED_NANOS
            } else {
                armed
            })
        }),
{
    let armed: u128 = match deadline {
        Some(at) => at.nanos,
        None => now.nanos + IDLE_NANOS,
    };
    let soon: u128 = now.nanos + STARVED_NANOS;
    if available == 0 && armed < soon {
        Instant { nanos: soon }
    } else {
        Instant { nanos: armed }
    }
}

/// What a write takes of a chunk and what it leaves are the chunk, in order: nothing is
/// sent twice, and only a connection that is gone drops what was left.
pub proof fn a_write_splits_its_chunk(chunk: Seq<u8>, outcome: Result<usize, StreamError>)
    ensures
        outcome matches Ok(n) ==> {
            &&& n < chunk.len() ==> sent_of(chunk, outcome) == chunk.take(n as int) && left_of(chunk, outcome) == Some(
                chunk.skip(n as int),
            )
            &&& n >= chunk.len() ==> sent_of(chunk, outcome) == chunk && left_of(chunk, outcome) is None
        },
        outcome == Err::<usize, StreamError>(StreamError::WouldBlock) ==> sent_of(chunk, outcome).len() == 0 && left_of(
            chunk,
            outcome,
        ) == Some(chunk),
        outcome == Err::<usize, StreamError>(StreamError::Closed) || outcome == Err::<usize, StreamError>(
            StreamError::Reset,
        ) || outcome == Err::<usize, StreamError>(StreamError::Unknown) ==> sent_of(chunk, outcome).len() == 0
            && left_of(chunk, outcome) is None,
{
}

/// What a read brings goes to the task; nothing yet is waited for; an end is passed on as
/// an end and a reset as a reset, and after either the task is read for no more.
pub proof fn an_end_is_passed_on_as_what_it_is(
    p: &mut Plumbing,
    outcome: Result<usize, StreamError>,
    r: Inward,
)
    requires
        call_ensures(Plumbing::read, (p, outcome), r),
    ensures
        outcome matches Ok(n) ==> r == (if n > 0 {
            Inward::Deliver(n)
        } else {
            Inward::Stop
        }) && final(p).reads == old(p).reads,
        outcome == Err::<usize, StreamError>(StreamError::WouldBlock) ==> r == Inward::Stop && final(p).reads
            == old(p).reads,
        outcome == Err::<usize, StreamError>(StreamError::Closed) ==> r == Inward::Finish && !final(p).reads,
        outcome == Err::<usize, StreamError>(StreamError::Unknown) ==> r == Inward::Finish && !final(p).reads,
        outcome == Err::<usize, StreamError>(StreamError::Reset) ==> r == Inward::Reset && !final(p).reads,
        final(p).pending == old(p).pending,
{
}

/// A connection is closed once, when its task is done, and not before.
pub proof fn a_connection_is_closed_once(p: &mut Plumbing, queued: Queued, r: Outward)
    requires
        call_ensures(Plumbing::next, (p, queued), r),
    ensures
        r is Close <==> queued is Disconnected && !old(p).finished,
        queued matches Queued::Chunk(chunk) ==> r == Outward::Send(chunk),
        queued is Empty ==> r is Stop,
        queued is Disconnected ==> final(p).finished,
        !(queued is Disconnected) ==> final(p).finished == old(p).finished,
{
}

/// The terminator wakes at its deadline, or in a quarter of a second where it has none;
/// without a buffer to send with, not before five milliseconds have passed.
pub proof fn a_starved_terminator_does_not_spin(
    deadline: Option<Instant>,
    now: Instant,
    available: usize,
    r: Instant,
)
    requires
        now.nanos + IDLE_NANOS <= u128::MAX,
        call_ensures(next_wake, (deadline, now, available), r),
    ensures
        available == 0 ==> r.nanos >= now.nanos + 5_000_000,
        available > 0 && deadline is Some ==> r == deadline->0,
        deadline is None ==> r.nanos == now.nanos + 250_000_000,
        deadline is Some && deadline->0.nanos >= now.nanos + 5_000_000 ==> r == deadline->0,
{
}

} // verus!
