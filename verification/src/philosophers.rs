//! The dining philosophers: what one philosopher does, and what holds of a
//! table of them.
//!
//! Each philosopher is given two forks and always takes them in the same
//! order. Around a ring, philosopher `n` is given forks `n` and `n + 1`; the
//! last one, whose second fork would be fork `0`, is given the two in
//! reverse. Every philosopher then takes its lower fork first, and that is
//! what keeps the table from locking up.

use crate::delay::get_random_delay;
use crate::delay::random_delay;
use crate::forks::all_free;
use crate::forks::ForkSet;
use crate::forks::ForkSync;
use crate::forks::StaticForks;
use crate::object::StaticKernelObject;
use vstd::prelude::*;

verus! {

/// How many philosophers sit at the table. There are as many forks.
pub const NUM_PHIL: usize = 6;

/// The period of which every pause is a multiple, in milliseconds.
pub const PERIOD_MS: usize = 25;

/// Where a philosopher is in its cycle. A philosopher is hungry from
/// `Hungry` until it holds both forks, and holds both from `HoldingBoth`
/// until it gives the second one back.
#[derive(Clone, Copy, Debug, PartialEq, Eq, Structural)]
pub enum Phase {
    /// Thinking: it holds no fork and will pause before it gets hungry.
    Thinking,
    /// Hungry: it holds no fork and waits for its first.
    Hungry,
    /// It holds its first fork and waits for its second.
    HoldingFirst,
    /// It holds both forks and will pause to eat.
    HoldingBoth,
    /// It has eaten and still holds both forks.
    Sated,
    /// It has given back its second fork and still holds its first.
    Yielding,
}

impl Phase {
    /// Whether a philosopher in this phase holds its first fork.
    pub open spec fn holds_first(self) -> bool {
        self == Phase::HoldingFirst || self == Phase::HoldingBoth || self == Phase::Sated || self
            == Phase::Yielding
    }

    /// Whether a philosopher in this phase holds its second fork.
    pub open spec fn holds_second(self) -> bool {
        self == Phase::HoldingBoth || self == Phase::Sated
    }

    /// The phase that follows this one.
    pub open spec fn successor(self) -> Phase {
        match self {
            Phase::Thinking => Phase::Hungry,
            Phase::Hungry => Phase::HoldingFirst,
            Phase::HoldingFirst => Phase::HoldingBoth,
            Phase::HoldingBoth => Phase::Sated,
            Phase::Sated => Phase::Yielding,
            Phase::Yielding => Phase::Thinking,
        }
    }

    /// The phase that follows this one.
    pub fn next(self) -> (phase: Phase)
        ensures
            phase == self.successor(),
    {
        match self {
            Phase::Thinking => Phase::Hungry,
            Phase::Hungry => Phase::HoldingFirst,
            Phase::HoldingFirst => Phase::HoldingBoth,
            Phase::HoldingBoth => Phase::Sated,
            Phase::Sated => Phase::Yielding,
            Phase::Yielding => Phase::Thinking,
        }
    }
}

/// What a philosopher does to leave a phase.
#[derive(Clone, Copy, Debug, PartialEq, Eq, Structural)]
pub enum Action {
    /// Take the fork with this index, waiting until it is free.
    Take(usize),
    /// Give back the fork with this index.
    Release(usize),
    /// Pause for this many milliseconds.
    Sleep(u64),
}

/// The two forks of philosopher `n` among `count`, in the order in which it
/// takes them.
pub open spec fn ring_pair(n: usize, count: usize) -> (usize, usize) {
    if n + 1 == count {
        (0, n)
    } else {
        (n, (n + 1) as usize)
    }
}

/// The two forks of philosopher `n` among `count`, in the order in which it
/// takes them: its own and the next, but for the last philosopher, which
/// takes fork `0` before its own.
pub fn fork_pair(n: usize, count: usize) -> (pair: (usize, usize))
    requires
        n < count,
    ensures
        pair == ring_pair(n, count),
        pair.0 < count,
        pair.1 < count,
        count >= 2 ==> pair.0 < pair.1,
{
    if n == count - 1 {
        (0, n)
    } else {
        (n, n + 1)
    }
}

/// A philosopher: its place, its two forks in the order in which it takes
/// them, and its phase.
#[derive(Clone, Copy, Debug, PartialEq, Eq, Structural)]
pub struct Actor {
    /// Its place at the table, from which its pauses are drawn.
    pub id: usize,
    /// The fork that it takes first.
    pub first: usize,
    /// The fork that it takes second.
    pub second: usize,
    /// Where it is in its cycle.
    pub phase: Phase,
}

impl Actor {
    /// Whether this philosopher holds the fork `r`.
    pub open spec fn holds(self, r: int) -> bool {
        (self.phase.holds_first() && self.first == r) || (self.phase.holds_second() && self.second
            == r)
    }

    /// The fork that this philosopher must be granted to leave its phase.
    pub open spec fn wants(self) -> Option<usize> {
        match self.phase {
            Phase::Hungry => Some(self.first),
            Phase::HoldingFirst => Some(self.second),
            _ => None,
        }
    }

    /// The fork that this philosopher gives back as it leaves its phase.
    pub open spec fn frees(self) -> Option<usize> {
        match self.phase {
            Phase::Sated => Some(self.second),
            Phase::Yielding => Some(self.first),
            _ => None,
        }
    }

    /// What this philosopher does to leave its phase when the tick counter
    /// reads `tick`.
    pub open spec fn action(self, tick: usize) -> Action {
        match self.phase {
            Phase::Hungry => Action::Take(self.first),
            Phase::HoldingFirst => Action::Take(self.second),
            Phase::Sated => Action::Release(self.second),
            Phase::Yielding => Action::Release(self.first),
            Phase::Thinking | Phase::HoldingBoth => Action::Sleep(
                random_delay(self.id, PERIOD_MS, tick) as u64,
            ),
        }
    }

    /// This philosopher in its next phase.
    pub open spec fn advanced(self) -> Actor {
        Actor { phase: self.phase.successor(), ..self }
    }

    /// A thinking philosopher at place `n` of a ring of `count`.
    pub fn seat(n: usize, count: usize) -> (actor: Actor)
        requires
            n < count,
        ensures
            actor == (Actor {
                id: n,
                first: ring_pair(n, count).0,
                second: ring_pair(n, count).1,
                phase: Phase::Thinking,
            }),
    {
        let pair = fork_pair(n, count);
        Actor { id: n, first: pair.0, second: pair.1, phase: Phase::Thinking }
    }

    /// What this philosopher does next when the tick counter reads `tick`,
    /// and the philosopher once that is done.
    pub fn act(self, tick: usize) -> (turn: (Action, Actor))
        ensures
            turn.0 == self.action(tick),
            turn.1 == self.advanced(),
            turn.0 matches Action::Sleep(millis) ==> PERIOD_MS <= millis <= 32 * PERIOD_MS,
    {
        let action = match self.phase {
            Phase::Hungry => Action::Take(self.first),
            Phase::HoldingFirst => Action::Take(self.second),
            Phase::Sated => Action::Release(self.second),
            Phase::Yielding => Action::Release(self.first),
            Phase::Thinking | Phase::HoldingBoth => Action::Sleep(
                get_random_delay(self.id, PERIOD_MS, tick),
            ),
        };
        (action, Actor { id: self.id, first: self.first, second: self.second, phase: self.phase.next() })
    }
}

/// One turn of philosopher `n` of `NUM_PHIL`: what it does to leave `phase`
/// when the tick counter reads `tick`, and the phase that it is in once that
/// is done. A philosopher starts out thinking and goes round for ever:
/// it pauses, takes its first fork and its second, pauses to eat, and gives
/// back the second and the first.
pub fn phil_thread(n: usize, phase: Phase, tick: usize) -> (turn: (Action, Phase))
    requires
        n < NUM_PHIL,
    ensures
        turn.1 == phase.successor(),
        turn.0 == (Actor {
            id: n,
            first: ring_pair(n, NUM_PHIL).0,
            second: ring_pair(n, NUM_PHIL).1,
            phase,
        }).action(tick),
{
    let seated = Actor::seat(n, NUM_PHIL);
    let actor = Actor { id: seated.id, first: seated.first, second: seated.second, phase };
    let turn = actor.act(tick);
    (turn.0, turn.1.phase)
}

/// The forks of the table, minted from their static slot: all free, and as
/// many as the slot declares. Only the first caller gets them.
pub fn get_syncer(slot: &StaticKernelObject<StaticForks>) -> (forks: Option<ForkSet>)
    ensures
        forks matches Some(set) ==> set.held() == all_free(slot.value.count as nat),
{
    slot.init_once(())
}

} // verus!
