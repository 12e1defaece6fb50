//! A connection that is shared between callers and opened by its own task.

use vstd::prelude::*;

verus! {

/// Where a shared connection stands.
#[derive(Debug, PartialEq, Eq)]
pub enum State<C> {
    Down,
    /// A dial is under way.
    Opening,
    Up(C),
}

/// What a caller does.
#[derive(Clone, Copy, Debug, PartialEq, Eq, Structural)]
pub enum Next {
    /// Take the connection that is up.
    Take,
    /// Wait for the dial that is under way.
    Wait,
    /// Start a dial, and wait for it.
    Dial,
}

/// A shared connection.
#[derive(Debug, PartialEq, Eq)]
pub struct Live<C> {
    pub state: State<C>,
}

/// What a caller does, and where it leaves the connection.
pub open spec fn answer_to<C>(state: State<C>, alive: bool) -> (Next, State<C>) {
    match state {
        State::Up(_) if alive => (Next::Take, state),
        State::Opening => (Next::Wait, state),
        _ => (Next::Dial, State::Opening),
    }
}

/// Where a dial that ended leaves the connection.
pub open spec fn after_dial<C>(outcome: Option<C>) -> State<C> {
    match outcome {
        Some(c) => State::Up(c),
        None => State::Down,
    }
}

/// How many of these callers start a dial, one after the other, before any
/// dial ends. Of each it is given whether it finds the connection alive.
pub open spec fn dials<C>(state: State<C>, callers: Seq<bool>) -> int
    decreases callers.len(),
{
    if callers.len() == 0 {
        0
    } else {
        let (next, after) = answer_to(state, callers[0]);
        dials(after, callers.skip(1)) + (if next == Next::Dial {
            1int
        } else {
            0
        })
    }
}

impl<C> Live<C> {
    pub fn new() -> (r: Self)
        ensures
            r.state is Down,
    {
        Live { state: State::Down }
    }

    /// The connection that is up; never dials.
    pub fn peek(&self) -> (r: Option<&C>)
        ensures
            match r {
                Some(c) => self.state == State::Up(*c),
                None => !(self.state is Up),
            },
    {
        match &self.state {
            State::Up(c) => Some(c),
            _ => None,
        }
    }

    /// What a caller does, given whether the connection that is up is still
    /// worth having. Of callers that come while a dial is under way, none
    /// starts another.
    pub fn get(&mut self, alive: bool) -> (r: Next)
        ensures
            (r, final(self).state) == answer_to(old(self).state, alive),
    {
        match &self.state {
            State::Up(_) => {
                if alive {
                    return Next::Take;
                }
            },
            State::Opening => {
                return Next::Wait;
            },
            State::Down => {},
        }
        self.state = State::Opening;
        Next::Dial
    }

    /// A dial ended. A failed one leaves nothing behind.
    pub fn dialled(&mut self, outcome: Option<C>)
        ensures
            final(self).state == after_dial(outcome),
    {
        self.state = match outcome {
            Some(c) => State::Up(c),
            None => State::Down,
        };
    }
}

/// Callers share one attempt: however many come before a dial ends, at most one
/// of them dials, and none where a dial is under way.
pub proof fn callers_share_one_dial<C>(state: State<C>, callers: Seq<bool>)
    ensures
        0 <= dials(state, callers) <= 1,
        state is Opening ==> dials(state, callers) == 0,
    decreases callers.len(),
{
    if callers.len() > 0 {
        let (_, after) = answer_to(state, callers[0]);
        callers_share_one_dial(after, callers.skip(1));
    }
}

/// A failed dial leaves nothing behind: the next caller dials again. One that
/// succeeded serves the next caller without another.
pub proof fn only_a_failed_dial_is_repeated<C>(outcome: Option<C>)
    ensures
        answer_to(after_dial(outcome), true).0 == (if outcome is None {
            Next::Dial
        } else {
            Next::Take
        }),
{
}

/// A caller takes a connection that is up and alive, waits for a dial that is under way,
/// and dials in every other case; a dead connection is never taken.
pub proof fn a_dead_connection_is_never_taken<C>(live: &mut Live<C>, alive: bool, r: Next)
    requires
        call_ensures(Live::<C>::get, (live, alive), r),
    ensures
        r == Next::Take <==> old(live).state is Up && alive,
        r == Next::Wait <==> old(live).state is Opening,
        r == Next::Dial <==> old(live).state is Down || (old(live).state is Up && !alive),
        r == Next::Dial ==> final(live).state is Opening,
        r != Next::Dial ==> final(live).state == old(live).state,
{
}

} // verus!
