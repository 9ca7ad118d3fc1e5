//! The forks: indexed exclusive resources that are taken and given back.
//!
//! `ForkSync` is what a table needs of its forks, whatever they are made
//! of. Taking never waits here: a caller that must wait asks again until it
//! is granted the fork. `ForkSet` keeps one flag for each fork, `ForkMask`
//! one bit of a single word.

use crate::object::Wrapped;
use vstd::prelude::*;

verus! {

/// Indexed forks that can be taken and given back.
pub trait ForkSync {
    /// For each fork, whether it is held.
    spec fn held(&self) -> Seq<bool>;

    /// The number of forks.
    fn count(&self) -> (count: usize)
        ensures
            count == self.held().len(),
    ;

    /// Whether the fork at `index` is held.
    fn is_held(&self, index: usize) -> (held: bool)
        requires
            index < self.held().len(),
        ensures
            held == self.held()[index as int],
    ;

    /// Takes the fork at `index` if it is free, and says whether it did.
    /// Afterwards the fork is held either way: by the caller where it was
    /// granted, by its earlier holder where it was not.
    fn try_take(&mut self, index: usize) -> (granted: bool)
        requires
            index < old(self).held().len(),
        ensures
            granted == !old(self).held()[index as int],
            final(self).held() == old(self).held().update(index as int, true),
    ;

    /// Marks the fork at `index` as free. Only its holder may call this.
    fn release(&mut self, index: usize)
        requires
            index < old(self).held().len(),
        ensures
            final(self).held() == old(self).held().update(index as int, false),
    ;
}

/// `count` free forks.
pub open spec fn all_free(count: nat) -> Seq<bool> {
    Seq::new(count, |r: int| false)
}

/// A set of forks with one flag for each.
pub struct ForkSet {
    flags: Vec<bool>,
}

impl ForkSet {
    /// `count` forks, all free.
    pub fn new(count: usize) -> (forks: ForkSet)
        ensures
            forks.held() == all_free(count as nat),
    {
        let mut flags: Vec<bool> = Vec::new();
        while flags.len() < count
            invariant
                flags.len() <= count,
                forall|r: int| 0 <= r < flags.len() ==> !flags[r],
            decreases count - flags.len(),
        {
            flags.push(false);
        }
        assert(flags@ =~= all_free(count as nat));
        ForkSet { flags }
    }
}

impl ForkSync for ForkSet {
    closed spec fn held(&self) -> Seq<bool> {
        self.flags@
    }

    fn count(&self) -> (count: usize) {
        self.flags.len()
    }

    fn is_held(&self, index: usize) -> (held: bool) {
        self.flags[index]
    }

    fn try_take(&mut self, index: usize) -> (granted: bool) {
        let granted = !self.flags[index];
        self.flags.set(index, true);
        granted
    }

    fn release(&mut self, index: usize) {
        self.flags.set(index, false);
    }
}

/// The most forks that a `ForkMask` can hold: the bits of its word.
pub const MASK_FORKS: usize = 64;

/// Whether bit `r` of `mask` is set.
pub open spec fn bit_set(mask: u64, r: u64) -> bool {
    (mask >> r) & 1 == 1
}

/// Setting bit `i` of a word sets that bit and leaves the others.
proof fn lemma_set_bit(mask: u64, i: u64, r: u64)
    by (bit_vector)
    requires
        i < 64,
        r < 64,
    ensures
        bit_set(mask | (1u64 << i), r) == (r == i || bit_set(mask, r)),
{
}

/// Clearing bit `i` of a word clears that bit and leaves the others.
proof fn lemma_clear_bit(mask: u64, i: u64, r: u64)
    by (bit_vector)
    requires
        i < 64,
        r < 64,
    ensures
        bit_set(mask & !(1u64 << i), r) == (r != i && bit_set(mask, r)),
{
}

/// No bit of zero is set.
proof fn lemma_zero_bits(r: u64)
    by (bit_vector)
    requires
        r < 64,
    ensures
        !bit_set(0, r),
{
}

/// A set of at most `MASK_FORKS` forks with one bit of a word for each.
pub struct ForkMask {
    mask: u64,
    count: usize,
}

impl ForkMask {
    /// `count` forks, all free; `None` where a word has too few bits for
    /// them.
    pub fn new(count: usize) -> (forks: Option<ForkMask>)
        ensures
            forks is Some <==> count <= MASK_FORKS,
            forks matches Some(mask) ==> mask.held() == all_free(count as nat),
    {
        if count > MASK_FORKS {
            None
        } else {
            let forks = ForkMask { mask: 0, count };
            proof {
                assert forall|r: int| 0 <= r < count implies !forks.held()[r] by {
                    lemma_zero_bits(r as u64);
                }
                assert(forks.held() =~= all_free(count as nat));
            }
            Some(forks)
        }
    }
}

impl ForkSync for ForkMask {
    closed spec fn held(&self) -> Seq<bool> {
        Seq::new(
            if self.count <= MASK_FORKS {
                self.count as nat
            } else {
                MASK_FORKS as nat
            },
            |r: int| bit_set(self.mask, r as u64),
        )
    }

    fn count(&self) -> (count: usize) {
        if self.count <= MASK_FORKS {
            self.count
        } else {
            MASK_FORKS
        }
    }

    fn is_held(&self, index: usize) -> (held: bool) {
        (self.mask >> (index as u64)) & 1 == 1
    }

    fn try_take(&mut self, index: usize) -> (granted: bool) {
        let granted = (self.mask >> (index as u64)) & 1 != 1;
        self.mask = self.mask | (1u64 << (index as u64));
        proof {
            assert forall|r: int| 0 <= r < self.held().len() implies self.held()[r] == old(
                self,
            ).held().update(index as int, true)[r] by {
                lemma_set_bit(old(self).mask, index as u64, r as u64);
            }
            assert(self.held() =~= old(self).held().update(index as int, true));
        }
        granted
    }

    fn release(&mut self, index: usize) {
        self.mask = self.mask & !(1u64 << (index as u64));
        proof {
            assert forall|r: int| 0 <= r < self.held().len() implies self.held()[r] == old(
                self,
            ).held().update(index as int, false)[r] by {
                lemma_clear_bit(old(self).mask, index as u64, r as u64);
            }
            assert(self.held() =~= old(self).held().update(index as int, false));
        }
    }
}

/// The raw payload of a fork set that is declared statically: the number of
/// forks that it is to hold.
pub struct StaticForks {
    /// The number of forks.
    pub count: usize,
}

impl Wrapped for StaticForks {
    type T = ForkSet;

    type I = ();

    /// The handle of a static fork set is a set of `count` free forks.
    open spec fn wraps(&self, args: (), handle: ForkSet) -> bool {
        handle.held() == all_free(self.count as nat)
    }

    fn get_wrapped(&self, args: ()) -> (handle: ForkSet) {
        ForkSet::new(self.count)
    }
}

} // verus!
