//! A table of philosophers and forks as a transition system, the table that
//! runs it, and what holds of every state that it can reach.

use crate::forks::all_free;
use crate::forks::ForkSet;
use crate::forks::ForkSync;
use crate::philosophers::ring_pair;
use crate::philosophers::Actor;
use crate::philosophers::Phase;
use vstd::prelude::*;

verus! {

/// The state of a table: its philosophers and, for each fork, whether it is
/// held.
pub struct TableView {
    /// The philosophers, by place.
    pub actors: Seq<Actor>,
    /// For each fork, whether it is held.
    pub held: Seq<bool>,
}

impl TableView {
    /// Whether philosopher `a` holds fork `r`.
    pub open spec fn holds(self, a: int, r: int) -> bool {
        self.actors[a].holds(r)
    }

    /// Whether every philosopher's two forks are forks of this table.
    pub open spec fn in_range(self) -> bool {
        forall|a: int|
            0 <= a < self.actors.len() ==> (#[trigger] self.actors[a]).first < self.held.len()
                && self.actors[a].second < self.held.len()
    }

    /// Whether every philosopher takes the lower of its two forks first.
    pub open spec fn ordered(self) -> bool {
        forall|a: int|
            0 <= a < self.actors.len() ==> (#[trigger] self.actors[a]).first
                < self.actors[a].second
    }

    /// Mutual exclusion: no fork is held by two philosophers.
    pub open spec fn exclusive(self) -> bool {
        forall|a: int, b: int, r: int|
            0 <= a < self.actors.len() && 0 <= b < self.actors.len() && #[trigger] self.holds(a, r)
                && #[trigger] self.holds(b, r) ==> a == b
    }

    /// What holds of a table however its philosophers interleave: a fork is
    /// marked as held exactly when a philosopher holds it, no fork is held by
    /// two, and a philosopher that holds its second fork has two different
    /// forks.
    pub open spec fn consistent(self) -> bool {
        &&& self.in_range()
        &&& forall|a: int, r: int|
            0 <= a < self.actors.len() && #[trigger] self.holds(a, r) ==> self.held[r]
        &&& forall|r: int|
            0 <= r < self.held.len() && #[trigger] self.held[r] ==> exists|a: int|
                0 <= a < self.actors.len() && #[trigger] self.holds(a, r)
        &&& self.exclusive()
        &&& forall|a: int|
            0 <= a < self.actors.len() && (#[trigger] self.actors[a]).phase.holds_second()
                ==> self.actors[a].first != self.actors[a].second
    }

    /// Whether philosopher `a` can take its next step: it either needs no
    /// fork for it or the fork that it needs is free.
    pub open spec fn enabled(self, a: int) -> bool {
        &&& 0 <= a < self.actors.len()
        &&& match self.actors[a].wants() {
            Some(r) => !self.held[r as int],
            None => true,
        }
    }

    /// The forks after philosopher `a` has taken its next step.
    pub open spec fn held_after(self, a: int) -> Seq<bool> {
        match self.actors[a].wants() {
            Some(r) => self.held.update(r as int, true),
            None => match self.actors[a].frees() {
                Some(r) => self.held.update(r as int, false),
                None => self.held,
            },
        }
    }

    /// The table after philosopher `a` has taken its next step. A philosopher
    /// that waits for a fork, or that does not exist, changes nothing.
    pub open spec fn step(self, a: int) -> TableView {
        if self.enabled(a) {
            TableView {
                actors: self.actors.update(a, self.actors[a].advanced()),
                held: self.held_after(a),
            }
        } else {
            self
        }
    }

    /// The table after the philosophers have stepped in the order of
    /// `schedule`.
    pub open spec fn run(self, schedule: Seq<int>) -> TableView
        decreases schedule.len(),
    {
        if schedule.len() == 0 {
            self
        } else {
            self.run(schedule.drop_last()).step(schedule.last())
        }
    }

    /// A table of thinking philosophers with the given pairs of forks, and
    /// `forks` free forks.
    pub open spec fn seated(pairs: Seq<(usize, usize)>, forks: nat) -> TableView {
        TableView {
            actors: Seq::new(
                pairs.len(),
                |a: int|
                    Actor {
                        id: a as usize,
                        first: pairs[a].0,
                        second: pairs[a].1,
                        phase: Phase::Thinking,
                    },
            ),
            held: all_free(forks),
        }
    }

    /// The pairs of forks of a ring of `count` philosophers.
    pub open spec fn ring_pairs(count: usize) -> Seq<(usize, usize)> {
        Seq::new(count as nat, |a: int| ring_pair(a as usize, count))
    }

    /// A ring of `count` thinking philosophers and `count` free forks.
    pub open spec fn ring(count: usize) -> TableView {
        TableView::seated(TableView::ring_pairs(count), count as nat)
    }

    /// Whether the philosophers are stuck: none of them can take a step.
    pub open spec fn deadlocked(self) -> bool {
        forall|a: int| 0 <= a < self.actors.len() ==> !#[trigger] self.enabled(a)
    }
}

/// A table that runs the philosophers one step at a time, over forks of
/// any make.
pub struct Table<S: ForkSync> {
    actors: Vec<Actor>,
    forks: S,
}

impl<S: ForkSync> View for Table<S> {
    type V = TableView;

    closed spec fn view(&self) -> TableView {
        TableView { actors: self.actors@, held: self.forks.held() }
    }
}

impl Table<ForkSet> {
    /// A ring of `count` thinking philosophers and `count` free forks.
    pub fn new(count: usize) -> (table: Table<ForkSet>)
        ensures
            table@ == TableView::ring(count),
            table.wf(),
    {
        let mut actors: Vec<Actor> = Vec::new();
        while actors.len() < count
            invariant
                actors.len() <= count,
                forall|a: int|
                    0 <= a < actors.len() ==> actors[a] == TableView::ring(count).actors[a],
            decreases count - actors.len(),
        {
            let n: usize = actors.len();
            actors.push(Actor::seat(n, count));
        }
        let forks = ForkSet::new(count);
        let table = Table { actors, forks };
        proof {
            assert(table@.actors =~= TableView::ring(count).actors);
            lemma_seated_consistent(TableView::ring_pairs(count), count as nat);
        }
        table
    }
}

impl<S: ForkSync> Table<S> {
    /// Whether this table is in a state that its philosophers can have
    /// brought about.
    pub open spec fn wf(&self) -> bool {
        self@.consistent()
    }

    /// A table of thinking philosophers with the given pairs of forks, over
    /// `forks`; `None` where one of the forks is held, or where a pair names
    /// a fork that is not there.
    pub fn seat(forks: S, pairs: &Vec<(usize, usize)>) -> (seated: Option<Table<S>>)
        ensures
            seated is Some <==> forks.held() == all_free(forks.held().len()) && forall|a: int|
                0 <= a < pairs.len() ==> (#[trigger] pairs[a]).0 < forks.held().len() && pairs[a].1
                    < forks.held().len(),
            seated matches Some(table) ==> table@ == TableView::seated(pairs@, forks.held().len())
                && table.wf(),
    {
        let count = forks.count();
        let mut r: usize = 0;
        while r < count
            invariant
                r <= count,
                count == forks.held().len(),
                forall|q: int| 0 <= q < r ==> !forks.held()[q],
            decreases count - r,
        {
            if forks.is_held(r) {
                assert(!all_free(count as nat)[r as int]);
                return None;
            }
            r += 1;
        }
        assert(forks.held() =~= all_free(count as nat));
        let mut actors: Vec<Actor> = Vec::new();
        while actors.len() < pairs.len()
            invariant
                actors.len() <= pairs.len(),
                count == forks.held().len(),
                forks.held() == all_free(count as nat),
                forall|a: int|
                    0 <= a < actors.len() ==> (#[trigger] pairs[a]).0 < count && pairs[a].1 < count,
                forall|a: int|
                    0 <= a < actors.len() ==> actors[a] == TableView::seated(
                        pairs@,
                        count as nat,
                    ).actors[a],
            decreases pairs.len() - actors.len(),
        {
            let n: usize = actors.len();
            let pair = pairs[n];
            if pair.0 >= count || pair.1 >= count {
                assert(!(pairs[n as int].0 < count && pairs[n as int].1 < count));
                return None;
            }
            actors.push(Actor { id: n, first: pair.0, second: pair.1, phase: Phase::Thinking });
        }
        let table = Table { actors, forks };
        proof {
            assert(table@.actors =~= TableView::seated(pairs@, count as nat).actors);
            lemma_seated_consistent(pairs@, count as nat);
        }
        Some(table)
    }

    /// The number of philosophers.
    pub fn len(&self) -> (count: usize)
        ensures
            count == self@.actors.len(),
    {
        self.actors.len()
    }

    /// The philosopher at place `a`.
    pub fn actor(&self, a: usize) -> (actor: Actor)
        requires
            a < self@.actors.len(),
        ensures
            actor == self@.actors[a as int],
    {
        self.actors[a]
    }

    /// Whether fork `r` is held.
    pub fn is_held(&self, r: usize) -> (held: bool)
        requires
            r < self@.held.len(),
        ensures
            held == self@.held[r as int],
    {
        self.forks.is_held(r)
    }

    /// Lets philosopher `a` take its next step if it can, and says whether
    /// it did. A philosopher that waits for a fork stays as it is.
    pub fn step(&mut self, a: usize) -> (moved: bool)
        requires
            old(self).wf(),
            a < old(self)@.actors.len(),
        ensures
            moved == old(self)@.enabled(a as int),
            final(self)@ == old(self)@.step(a as int),
            final(self).wf(),
    {
        let actor = self.actors[a];
        proof {
            lemma_step_consistent(self@, a as int);
        }
        let moved = match actor.phase {
            Phase::Hungry => self.forks.try_take(actor.first),
            Phase::HoldingFirst => self.forks.try_take(actor.second),
            Phase::Sated => {
                self.forks.release(actor.second);
                true
            },
            Phase::Yielding => {
                self.forks.release(actor.first);
                true
            },
            Phase::Thinking | Phase::HoldingBoth => true,
        };
        if moved {
            self.actors.set(
                a,
                Actor {
                    id: actor.id,
                    first: actor.first,
                    second: actor.second,
                    phase: actor.phase.next(),
                },
            );
        }
        assert(self@.actors =~= old(self)@.step(a as int).actors);
        assert(self@.held =~= old(self)@.step(a as int).held);
        moved
    }
}

/// A table of thinking philosophers and free forks is consistent as soon as
/// every philosopher's forks are forks of the table.
pub proof fn lemma_seated_consistent(pairs: Seq<(usize, usize)>, forks: nat)
    requires
        forall|a: int| 0 <= a < pairs.len() ==> (#[trigger] pairs[a]).0 < forks && pairs[a].1 < forks,
    ensures
        TableView::seated(pairs, forks).consistent(),
{
    let table = TableView::seated(pairs, forks);
    assert forall|a: int| 0 <= a < table.actors.len() implies (#[trigger] table.actors[a]).first
        < table.held.len() && table.actors[a].second < table.held.len() by {
        assert(pairs[a].0 < forks);
    }
}

/// A step of any philosopher keeps a consistent table consistent.
pub proof fn lemma_step_consistent(table: TableView, a: int)
    requires
        table.consistent(),
    ensures
        table.step(a).consistent(),
        table.step(a).actors.len() == table.actors.len(),
        table.step(a).held.len() == table.held.len(),
{
    if table.enabled(a) {
        let after = table.step(a);
        let me = table.actors[a];
        assert(after.actors[a] == me.advanced());
        assert(table.holds(a, me.first as int) == me.phase.holds_first());
        assert(table.holds(a, me.second as int) == (me.phase.holds_second() || (
        me.phase.holds_first() && me.first == me.second)));
        assert forall|b: int, r: int| 0 <= b < after.actors.len() && b != a implies after.holds(
            b,
            r,
        ) == table.holds(b, r) by {}
        assert forall|b: int, r: int|
            0 <= b < after.actors.len() && #[trigger] after.holds(b, r) implies after.held[r] by {
            if b != a {
                assert(table.holds(b, r));
            }
        }
        assert forall|r: int| 0 <= r < after.held.len() && #[trigger] after.held[r] implies exists|
            b: int,
        |
            0 <= b < after.actors.len() && #[trigger] after.holds(b, r) by {
            if after.holds(a, r) {
            } else {
                assert(table.held[r]);
                let b = choose|b: int| 0 <= b < table.actors.len() && #[trigger] table.holds(b, r);
                if b == a {
                    assert(table.holds(a, r));
                } else {
                    assert(after.holds(b, r));
                }
            }
        }
        assert forall|b: int, c: int, r: int|
            0 <= b < after.actors.len() && 0 <= c < after.actors.len() && #[trigger] after.holds(
                b,
                r,
            ) && #[trigger] after.holds(c, r) implies b == c by {
            if b != a {
                assert(table.holds(b, r));
            }
            if c != a {
                assert(table.holds(c, r));
            }
            if b == a && c != a {
                assert(table.held[r]);
                assert(table.holds(a, r));
            }
            if c == a && b != a {
                assert(table.held[r]);
                assert(table.holds(a, r));
            }
        }
        assert forall|b: int|
            0 <= b < after.actors.len() && (#[trigger] after.actors[b]).phase.holds_second()
                implies after.actors[b].first != after.actors[b].second by {
            if b == a {
                if me.phase == Phase::HoldingFirst {
                    assert(table.holds(a, me.first as int));
                }
            } else {
                assert(table.actors[b].phase.holds_second());
            }
        }
        assert forall|b: int| 0 <= b < after.actors.len() implies (#[trigger] after.actors[b]).first
            < after.held.len() && after.actors[b].second < after.held.len() by {
            assert(table.actors[b].first < table.held.len());
        }
    }
}

/// Steps never change who sits where or which forks a philosopher is given,
/// and they keep a consistent table consistent.
pub proof fn lemma_run_consistent(table: TableView, schedule: Seq<int>)
    requires
        table.consistent(),
    ensures
        table.run(schedule).consistent(),
        table.run(schedule).actors.len() == table.actors.len(),
        table.run(schedule).held.len() == table.held.len(),
        forall|a: int|
            0 <= a < table.actors.len() ==> (#[trigger] table.run(schedule).actors[a]).first
                == table.actors[a].first && table.run(schedule).actors[a].second
                == table.actors[a].second && table.run(schedule).actors[a].id == table.actors[a].id,
    decreases schedule.len(),
{
    if schedule.len() > 0 {
        lemma_run_consistent(table, schedule.drop_last());
        lemma_step_consistent(table.run(schedule.drop_last()), schedule.last());
    }
}

/// In a stuck table where every philosopher takes its lower fork first, no
/// fork can be held: its holder would wait for a higher fork, which would be
/// held in turn, and the forks run out.
proof fn lemma_stuck_holds_nothing(table: TableView, r: int)
    requires
        table.consistent(),
        table.ordered(),
        table.deadlocked(),
        0 <= r < table.held.len(),
    ensures
        !table.held[r],
    decreases table.held.len() - r,
{
    if table.held[r] {
        let a = choose|a: int| 0 <= a < table.actors.len() && #[trigger] table.holds(a, r);
        assert(!table.enabled(a));
        let me = table.actors[a];
        assert(me.phase == Phase::HoldingFirst);
        assert(me.first < me.second);
        lemma_stuck_holds_nothing(table, me.second as int);
    }
}

/// Deadlock-freedom. At a consistent table with at least one philosopher,
/// where every philosopher takes its lower fork first, some philosopher can
/// always take a step.
pub proof fn lemma_ordered_never_stuck(table: TableView)
    requires
        table.consistent(),
        table.ordered(),
        table.actors.len() >= 1,
    ensures
        !table.deadlocked(),
        exists|a: int| 0 <= a < table.actors.len() && #[trigger] table.enabled(a),
{
    if table.deadlocked() {
        assert(!table.enabled(0));
        let r = table.actors[0].wants()->0;
        lemma_stuck_holds_nothing(table, r as int);
    }
}

/// Around a ring of at least two, every philosopher takes its lower fork
/// first: that is what giving the last one its forks in reverse achieves.
pub proof fn lemma_ring_ordered(count: usize)
    requires
        count >= 2,
    ensures
        TableView::ring(count).ordered(),
{
}

/// A ring of any size starts out consistent.
pub proof fn lemma_ring_consistent(count: usize)
    ensures
        TableView::ring(count).consistent(),
{
    lemma_seated_consistent(TableView::ring_pairs(count), count as nat);
}

/// Mutual exclusion around the ring. However the philosophers interleave, no
/// fork is ever held by two of them, and a fork is marked as held exactly
/// when one of them holds it.
pub proof fn lemma_ring_mutual_exclusion(count: usize, schedule: Seq<int>)
    ensures
        TableView::ring(count).run(schedule).exclusive(),
        forall|a: int, b: int, r: int|
            0 <= a < count && 0 <= b < count && a != b ==> !(#[trigger] TableView::ring(count).run(
                schedule,
            ).holds(a, r) && #[trigger] TableView::ring(count).run(schedule).holds(b, r)),
        forall|r: int|
            0 <= r < count ==> (#[trigger] TableView::ring(count).run(schedule).held[r]
                <==> exists|a: int|
                0 <= a < count && #[trigger] TableView::ring(count).run(schedule).holds(a, r)),
{
    lemma_ring_consistent(count);
    lemma_run_consistent(TableView::ring(count), schedule);
}

/// Deadlock-freedom around the ring. However the philosophers of a ring of
/// at least two interleave, one of them can always take its next step.
pub proof fn lemma_ring_never_stuck(count: usize, schedule: Seq<int>)
    requires
        count >= 2,
    ensures
        !TableView::ring(count).run(schedule).deadlocked(),
        exists|a: int| 0 <= a < count && #[trigger] TableView::ring(count).run(schedule).enabled(a),
{
    lemma_ring_consistent(count);
    lemma_ring_ordered(count);
    lemma_run_consistent(TableView::ring(count), schedule);
    let table = TableView::ring(count).run(schedule);
    assert forall|a: int| 0 <= a < table.actors.len() implies (#[trigger] table.actors[a]).first
        < table.actors[a].second by {
        assert(TableView::ring(count).actors[a].first < TableView::ring(count).actors[a].second);
    }
    lemma_ordered_never_stuck(table);
}

/// The pairs of forks of a ring of `count` philosophers in which nobody's
/// forks are reversed: every philosopher takes its own fork first and the
/// next one second, the last one fork `0`.
pub open spec fn unreversed_pairs(count: usize) -> Seq<(usize, usize)> {
    Seq::new(
        count as nat,
        |a: int|
            if a + 1 == count {
                (a as usize, 0usize)
            } else {
                (a as usize, (a + 1) as usize)
            },
    )
}

/// The schedule in which every one of `count` philosophers steps once, in
/// order, and then every one steps once more.
pub open spec fn two_rounds(count: usize) -> Seq<int> {
    Seq::new(
        2 * count as nat,
        |i: int|
            if i < count {
                i
            } else {
                i - count
            },
    )
}

/// The unreversed ring after the first `k` steps of `two_rounds`: the first
/// round makes the philosophers hungry one by one, the second gives each its
/// own fork.
spec fn unreversed_after(count: usize, k: int) -> TableView {
    TableView {
        actors: Seq::new(
            count as nat,
            |a: int|
                Actor {
                    id: a as usize,
                    first: unreversed_pairs(count)[a].0,
                    second: unreversed_pairs(count)[a].1,
                    phase: if k <= count {
                        if a < k {
                            Phase::Hungry
                        } else {
                            Phase::Thinking
                        }
                    } else {
                        if a < k - count {
                            Phase::HoldingFirst
                        } else {
                            Phase::Hungry
                        }
                    },
                },
        ),
        held: Seq::new(count as nat, |r: int| k > count && r < k - count),
    }
}

/// The first `k` steps of `two_rounds` take the unreversed ring to
/// `unreversed_after`.
proof fn lemma_unreversed_prefix(count: usize, k: int)
    requires
        0 <= k <= 2 * count,
    ensures
        TableView::seated(unreversed_pairs(count), count as nat).run(two_rounds(count).take(k))
            == unreversed_after(count, k),
    decreases k,
{
    let start = TableView::seated(unreversed_pairs(count), count as nat);
    let schedule = two_rounds(count).take(k);
    if k == 0 {
        assert(start.actors =~= unreversed_after(count, 0).actors);
        assert(start.held =~= unreversed_after(count, 0).held);
    } else {
        lemma_unreversed_prefix(count, k - 1);
        assert(schedule.drop_last() =~= two_rounds(count).take(k - 1));
        let before = unreversed_after(count, k - 1);
        let a = schedule.last();
        assert(a == if k - 1 < count { k - 1 } else { k - 1 - count });
        assert(before.enabled(a));
        let after = before.step(a);
        assert(after.actors =~= unreversed_after(count, k).actors);
        assert(after.held =~= unreversed_after(count, k).held);
    }
}

/// Why the last philosopher's forks are reversed. Around a ring in which
/// every philosopher takes its own fork first, the philosophers can get
/// stuck: let each get hungry and then each take its own fork, and every one
/// waits for the fork of the next.
pub proof fn lemma_unreversed_ring_gets_stuck(count: usize)
    requires
        count >= 1,
    ensures
        TableView::seated(unreversed_pairs(count), count as nat).run(
            two_rounds(count),
        ).actors.len() == count,
        TableView::seated(unreversed_pairs(count), count as nat).run(
            two_rounds(count),
        ).deadlocked(),
{
    lemma_unreversed_prefix(count, 2 * count);
    assert(two_rounds(count).take(2 * count) =~= two_rounds(count));
    let stuck = unreversed_after(count, 2 * count);
    assert forall|a: int| 0 <= a < stuck.actors.len() implies !#[trigger] stuck.enabled(a) by {
        assert(stuck.actors[a].wants() == Some(stuck.actors[a].second));
    }
}

} // verus!
