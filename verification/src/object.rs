//! Statically placed kernel objects and their one-shot initialization.
//!
//! A slot pairs the raw payload of a kernel object with an atomic state word.
//! The word starts at zero, so loader zero-fill is a valid initial state, and
//! moves once through `KOBJ_INITING` to `KOBJ_INITIALIZED`. Only the caller
//! that moves it off zero may construct the object and mint its handle.

use core::sync::atomic::AtomicUsize;
use core::sync::atomic::Ordering;
use vstd::prelude::*;

verus! {

/// State word of a slot that nobody has touched. It is zero, the bit pattern
/// that zero-filled memory holds.
pub const KOBJ_UNINITIALIZED: usize = 0;

/// State word of a slot whose construction is under way.
pub const KOBJ_INITING: usize = 1;

/// State word of a slot whose handle has been minted.
pub const KOBJ_INITIALIZED: usize = 2;

/// A kernel object declared statically: the raw payload of kind `T` and the
/// state word that guards its one construction.
pub struct StaticKernelObject<T> {
    /// The raw payload that the kernel owns.
    pub value: T,
    /// The initialization state word.
    pub init: AtomicUsize,
}

/// The wrapping protocol of one kind of kernel object: how its raw payload
/// and the construction arguments become a handle. A kind implements it on
/// its payload type.
pub trait Wrapped {
    /// The handle that `init_once` gives out.
    type T;

    /// The construction arguments of this kind; `()` where it needs none.
    type I;

    /// Whether `handle` is what constructing this payload with `args` mints.
    /// A kind that says nothing of its handles leaves this as it is.
    open spec fn wraps(&self, args: Self::I, handle: Self::T) -> bool {
        true
    }

    /// Constructs the kernel object in this payload and returns its handle.
    /// It must not fail: it is for setup that succeeds on a valid payload.
    fn get_wrapped(&self, args: Self::I) -> (handle: Self::T)
        ensures
            self.wraps(args, handle),
    ;
}

/// What a compare-and-swap does to a state word that holds `word`: the word
/// afterwards, and what the caller is told. `Ok` and `Err` both carry the
/// word as it was.
pub open spec fn compare_exchange(word: usize, current: usize, new: usize) -> (
    usize,
    Result<usize, usize>,
) {
    if word == current {
        (new, Ok(word))
    } else {
        (word, Err(word))
    }
}

/// Compare-and-swap of a state word from `KOBJ_UNINITIALIZED` to
/// `KOBJ_INITING`, acquire-release where it succeeds and acquire where it
/// fails. `Ok` means that this caller moved the word.
fn claim(word: &AtomicUsize) -> Result<usize, usize> {
    word.compare_exchange(KOBJ_UNINITIALIZED, KOBJ_INITING, Ordering::AcqRel, Ordering::Acquire)
}

/// Release store of `KOBJ_INITIALIZED`, which publishes what the winner wrote.
fn publish(word: &AtomicUsize) {
    word.store(KOBJ_INITIALIZED, Ordering::Release);
}

impl<T: Wrapped> StaticKernelObject<T> {
    /// A fresh slot around `value`, with its state word at zero.
    pub fn new(value: T) -> (slot: StaticKernelObject<T>)
        ensures
            slot.value == value,
    {
        StaticKernelObject { value, init: AtomicUsize::new(KOBJ_UNINITIALIZED) }
    }

    /// What a caller does once its claim has come back as `observed`: the
    /// winner constructs the object, publishes it and gets the handle; a
    /// loser gets nothing and touches nothing.
    fn settle(&self, observed: Result<usize, usize>, args: T::I) -> (minted: Option<T::T>)
        ensures
            observed is Ok <==> minted is Some,
            minted matches Some(handle) ==> self.value.wraps(args, handle),
    {
        match observed {
            Err(_) => None,
            Ok(_) => {
                let handle = self.value.get_wrapped(args);
                publish(&self.init);
                Some(handle)
            },
        }
    }

    /// Tries to claim this slot and, on success, constructs the object and
    /// returns its handle. The claim is one compare-and-swap of the state
    /// word from `KOBJ_UNINITIALIZED` to `KOBJ_INITING`; a caller that loses
    /// it gets `None` at once, without waiting for the winner. Which caller
    /// wins is decided by the state word alone, so the contract speaks only
    /// of the handle; `SlotRace` states what holds of the callers together.
    pub fn init_once(&self, args: T::I) -> (minted: Option<T::T>)
        ensures
            minted matches Some(handle) ==> self.value.wraps(args, handle),
    {
        let observed = claim(&self.init);
        self.settle(observed, args)
    }
}

/// How far one caller of `init_once` has come.
#[derive(Clone, Copy, Debug, PartialEq, Eq, Structural)]
pub enum Stage {
    /// It has not tried its claim yet.
    Ready,
    /// Its claim succeeded; it has not constructed the object yet.
    Constructing,
    /// It has constructed the object and not yet published it.
    Publishing,
    /// It returned with the handle.
    Won,
    /// Its claim failed and it returned without a handle.
    Lost,
}

impl Stage {
    /// Whether a caller at this stage is the one whose claim succeeded.
    pub open spec fn holds_claim(self) -> bool {
        self == Stage::Constructing || self == Stage::Publishing || self == Stage::Won
    }

    /// Whether a caller at this stage has returned.
    pub open spec fn returned(self) -> bool {
        self == Stage::Won || self == Stage::Lost
    }

    /// The most steps that a caller at this stage still takes before it
    /// returns.
    pub open spec fn steps_left(self) -> nat {
        match self {
            Stage::Ready => 3,
            Stage::Constructing => 2,
            Stage::Publishing => 1,
            Stage::Won | Stage::Lost => 0,
        }
    }
}

/// Any number of callers racing for one slot, as a transition system. Each
/// caller calls `init_once` once, and each of its accesses to the slot is one
/// atomic step: the claim, the construction, the publishing store.
pub struct SlotRace {
    /// The state word.
    pub word: usize,
    /// How often the object has been constructed.
    pub constructions: nat,
    /// The caller whose claim succeeded, if any has.
    pub claimant: Option<int>,
    /// The stage of each caller.
    pub stages: Seq<Stage>,
}

impl SlotRace {
    /// An untouched slot with `callers` callers that have yet to start.
    pub open spec fn fresh(callers: nat) -> SlotRace {
        SlotRace {
            word: KOBJ_UNINITIALIZED,
            constructions: 0,
            claimant: None,
            stages: Seq::new(callers, |c: int| Stage::Ready),
        }
    }

    /// The race after caller `c` has taken its next step. A caller that has
    /// returned, or that does not exist, changes nothing.
    pub open spec fn step(self, c: int) -> SlotRace {
        if 0 <= c < self.stages.len() {
            match self.stages[c] {
                Stage::Ready => {
                    let (word, told) = compare_exchange(
                        self.word,
                        KOBJ_UNINITIALIZED,
                        KOBJ_INITING,
                    );
                    if told is Ok {
                        SlotRace {
                            word,
                            claimant: Some(c),
                            stages: self.stages.update(c, Stage::Constructing),
                            ..self
                        }
                    } else {
                        SlotRace { word, stages: self.stages.update(c, Stage::Lost), ..self }
                    }
                },
                Stage::Constructing => SlotRace {
                    constructions: self.constructions + 1,
                    stages: self.stages.update(c, Stage::Publishing),
                    ..self
                },
                Stage::Publishing => SlotRace {
                    word: KOBJ_INITIALIZED,
                    stages: self.stages.update(c, Stage::Won),
                    ..self
                },
                Stage::Won | Stage::Lost => self,
            }
        } else {
            self
        }
    }

    /// The race after the callers have stepped in the order of `schedule`.
    pub open spec fn run(self, schedule: Seq<int>) -> SlotRace
        decreases schedule.len(),
    {
        if schedule.len() == 0 {
            self
        } else {
            self.run(schedule.drop_last()).step(schedule.last())
        }
    }

    /// Whether every caller has returned.
    pub open spec fn all_returned(self) -> bool {
        forall|c: int| 0 <= c < self.stages.len() ==> (#[trigger] self.stages[c]).returned()
    }

    /// What holds of a slot however its callers interleave: the state word,
    /// the count of constructions and the claimant's stage agree, only the
    /// claimant is past its claim, and nobody has lost before a claim
    /// succeeded.
    pub open spec fn inv(self) -> bool {
        &&& match self.claimant {
            None => self.word == KOBJ_UNINITIALIZED && self.constructions == 0,
            Some(w) => 0 <= w < self.stages.len() && match self.stages[w] {
                Stage::Constructing => self.word == KOBJ_INITING && self.constructions == 0,
                Stage::Publishing => self.word == KOBJ_INITING && self.constructions == 1,
                Stage::Won => self.word == KOBJ_INITIALIZED && self.constructions == 1,
                _ => false,
            },
        }
        &&& forall|c: int|
            0 <= c < self.stages.len() && (#[trigger] self.stages[c]).holds_claim()
                ==> self.claimant == Some(c)
        &&& forall|c: int|
            0 <= c < self.stages.len() && #[trigger] self.stages[c] == Stage::Lost
                ==> self.claimant is Some
    }

    /// A step keeps the invariant, keeps the number of callers, and never
    /// moves the state word or the count of constructions back.
    pub proof fn lemma_step(self, c: int)
        requires
            self.inv(),
        ensures
            self.step(c).inv(),
            self.step(c).stages.len() == self.stages.len(),
            self.step(c).word >= self.word,
            self.step(c).constructions >= self.constructions,
    {
    }

    /// No caller ever waits: whatever the others have done, each step of a
    /// caller that has not returned brings it nearer to its return, which is
    /// at most three steps away.
    pub proof fn lemma_never_blocks(self, c: int)
        requires
            0 <= c < self.stages.len(),
            !self.stages[c].returned(),
        ensures
            self.step(c).stages[c].steps_left() < self.stages[c].steps_left() <= 3,
    {
    }

    /// Along any schedule the invariant is kept, and the state word and the
    /// count of constructions never go back.
    pub proof fn lemma_run(self, schedule: Seq<int>)
        requires
            self.inv(),
        ensures
            self.run(schedule).inv(),
            self.run(schedule).stages.len() == self.stages.len(),
            self.run(schedule).word >= self.word,
            self.run(schedule).constructions >= self.constructions,
        decreases schedule.len(),
    {
        if schedule.len() > 0 {
            self.lemma_run(schedule.drop_last());
            self.run(schedule.drop_last()).lemma_step(schedule.last());
        }
    }

    /// Exactly-once initialization. However the callers interleave, at most
    /// one of them is ever past its claim and the object is constructed at
    /// most once; and once all of at least one callers have returned, one of
    /// them has the handle and every other has none.
    pub proof fn lemma_exactly_once(callers: nat, schedule: Seq<int>)
        ensures
            ({
                let race = SlotRace::fresh(callers).run(schedule);
                &&& race.constructions <= 1
                &&& forall|a: int, b: int|
                    0 <= a < callers && 0 <= b < callers && (#[trigger] race.stages[a]).holds_claim()
                        && (#[trigger] race.stages[b]).holds_claim() ==> a == b
                &&& callers >= 1 && race.all_returned() ==> exists|w: int|
                    0 <= w < callers && #[trigger] race.stages[w] == Stage::Won && forall|c: int|
                        0 <= c < callers && c != w ==> #[trigger] race.stages[c] == Stage::Lost
            }),
    {
        SlotRace::fresh(callers).lemma_run(schedule);
        let race = SlotRace::fresh(callers).run(schedule);
        if callers >= 1 && race.all_returned() {
            assert(race.stages[0].returned());
            let w = race.claimant->0;
            assert(race.stages[w].returned());
            assert forall|c: int| 0 <= c < callers && c != w implies #[trigger] race.stages[c]
                == Stage::Lost by {
                assert(race.stages[c].returned());
            }
        }
    }

    /// Visibility. The state word only ever reads one of its three values,
    /// and wherever it reads `KOBJ_INITIALIZED` the one construction is
    /// complete: nobody can see the word published and the object half
    /// built, and nothing that happens later constructs it again or takes
    /// the word back.
    pub proof fn lemma_published_is_constructed(callers: nat, schedule: Seq<int>, later: Seq<int>)
        ensures
            ({
                let race = SlotRace::fresh(callers).run(schedule);
                &&& race.word == KOBJ_UNINITIALIZED || race.word == KOBJ_INITING || race.word
                    == KOBJ_INITIALIZED
                &&& race.word == KOBJ_UNINITIALIZED ==> race.constructions == 0
                &&& race.word == KOBJ_INITIALIZED ==> race.constructions == 1
                &&& race.word == KOBJ_INITIALIZED ==> race.run(later).word == KOBJ_INITIALIZED
                    && race.run(later).constructions == 1
            }),
    {
        SlotRace::fresh(callers).lemma_run(schedule);
        SlotRace::fresh(callers).run(schedule).lemma_run(later);
    }
}

} // verus!
