use kobj::forks::{ForkMask, ForkSet, ForkSync};
use kobj::philosophers::{fork_pair, phil_thread, Action, Actor, Phase, NUM_PHIL, PERIOD_MS};
use kobj::table::Table;

#[test]
fn pairs_of_six() {
    assert_eq!(fork_pair(0, 6), (0, 1));
    assert_eq!(fork_pair(1, 6), (1, 2));
    assert_eq!(fork_pair(2, 6), (2, 3));
    assert_eq!(fork_pair(3, 6), (3, 4));
    assert_eq!(fork_pair(4, 6), (4, 5));
    assert_eq!(fork_pair(5, 6), (0, 5));
}

#[test]
fn pairs_of_small_rings() {
    assert_eq!(fork_pair(0, 1), (0, 0));
    assert_eq!(fork_pair(0, 2), (0, 1));
    assert_eq!(fork_pair(1, 2), (0, 1));
    assert_eq!(fork_pair(2, 3), (0, 2));
}

#[test]
fn every_pair_takes_the_lower_fork_first() {
    for count in 2..40usize {
        for n in 0..count {
            let (first, second) = fork_pair(n, count);
            assert!(first < second);
            assert!(second < count);
            assert!(first == n || second == n);
        }
    }
}

#[test]
fn phases_go_round() {
    let mut phase = Phase::Thinking;
    let expected = [
        Phase::Hungry,
        Phase::HoldingFirst,
        Phase::HoldingBoth,
        Phase::Sated,
        Phase::Yielding,
        Phase::Thinking,
    ];
    for next in expected {
        phase = phase.next();
        assert_eq!(phase, next);
    }
}

#[test]
fn seat_gives_a_thinking_philosopher() {
    let actor = Actor::seat(5, 6);
    assert_eq!(actor, Actor { id: 5, first: 0, second: 5, phase: Phase::Thinking });
    let actor = Actor::seat(2, 6);
    assert_eq!(actor, Actor { id: 2, first: 2, second: 3, phase: Phase::Thinking });
}

#[test]
fn one_cycle_of_a_middle_philosopher() {
    // 1234 / 100 * 3 = 36, 36 mod 32 = 4, one more is 5 periods of 25 ms.
    assert_eq!(phil_thread(2, Phase::Thinking, 1234), (Action::Sleep(125), Phase::Hungry));
    assert_eq!(phil_thread(2, Phase::Hungry, 0), (Action::Take(2), Phase::HoldingFirst));
    assert_eq!(phil_thread(2, Phase::HoldingFirst, 0), (Action::Take(3), Phase::HoldingBoth));
    assert_eq!(phil_thread(2, Phase::HoldingBoth, 0), (Action::Sleep(25), Phase::Sated));
    assert_eq!(phil_thread(2, Phase::Sated, 0), (Action::Release(3), Phase::Yielding));
    assert_eq!(phil_thread(2, Phase::Yielding, 0), (Action::Release(2), Phase::Thinking));
}

#[test]
fn one_cycle_of_the_last_philosopher() {
    assert_eq!(NUM_PHIL, 6);
    assert_eq!(PERIOD_MS, 25);
    // 700 / 100 * 6 = 42, 42 mod 32 = 10, one more is 11 periods of 25 ms.
    assert_eq!(phil_thread(5, Phase::Thinking, 700), (Action::Sleep(275), Phase::Hungry));
    assert_eq!(phil_thread(5, Phase::Hungry, 0), (Action::Take(0), Phase::HoldingFirst));
    assert_eq!(phil_thread(5, Phase::HoldingFirst, 0), (Action::Take(5), Phase::HoldingBoth));
    // 3100 / 100 * 6 = 186, 186 mod 32 = 26, one more is 27 periods of 25 ms.
    assert_eq!(phil_thread(5, Phase::HoldingBoth, 3100), (Action::Sleep(675), Phase::Sated));
    assert_eq!(phil_thread(5, Phase::Sated, 0), (Action::Release(5), Phase::Yielding));
    assert_eq!(phil_thread(5, Phase::Yielding, 0), (Action::Release(0), Phase::Thinking));
}

#[test]
fn act_advances_the_philosopher() {
    let actor = Actor { id: 1, first: 1, second: 2, phase: Phase::Hungry };
    let (action, after) = actor.act(0);
    assert_eq!(action, Action::Take(1));
    assert_eq!(after, Actor { id: 1, first: 1, second: 2, phase: Phase::HoldingFirst });
}

#[test]
fn sleeps_are_between_one_and_thirty_two_periods() {
    for n in 0..6usize {
        for tick in (0..100_000usize).step_by(53) {
            for phase in [Phase::Thinking, Phase::HoldingBoth] {
                match phil_thread(n, phase, tick).0 {
                    Action::Sleep(millis) => {
                        assert!(millis >= 25 && millis <= 800);
                        assert_eq!(millis % 25, 0);
                    }
                    other => panic!("expected a sleep, got {:?}", other),
                }
            }
        }
    }
}

fn holders<S: ForkSync>(table: &Table<S>, r: usize) -> usize {
    let mut count = 0;
    for a in 0..table.len() {
        let actor = table.actor(a);
        let first = matches!(
            actor.phase,
            Phase::HoldingFirst | Phase::HoldingBoth | Phase::Sated | Phase::Yielding
        );
        let second = matches!(actor.phase, Phase::HoldingBoth | Phase::Sated);
        if (first && actor.first == r) || (second && actor.second == r) {
            count += 1;
        }
    }
    count
}

fn assert_exclusive<S: ForkSync>(table: &Table<S>, forks: usize) {
    for r in 0..forks {
        let count = holders(table, r);
        assert!(count <= 1);
        assert_eq!(table.is_held(r), count == 1);
    }
}

#[test]
fn new_table_is_a_ring_of_thinkers() {
    let table = Table::new(6);
    assert_eq!(table.len(), 6);
    for a in 0..6 {
        assert_eq!(table.actor(a), Actor::seat(a, 6));
        assert!(!table.is_held(a));
    }
    assert_eq!(table.actor(5).first, 0);
    assert_eq!(table.actor(5).second, 5);
}

#[test]
fn step_by_step() {
    let mut table = Table::new(3);
    // Philosopher 0 gets hungry and takes fork 0.
    assert!(table.step(0));
    assert_eq!(table.actor(0).phase, Phase::Hungry);
    assert!(table.step(0));
    assert_eq!(table.actor(0).phase, Phase::HoldingFirst);
    assert!(table.is_held(0));
    // Philosopher 2, the last one, wants fork 0 first and must wait.
    assert!(table.step(2));
    assert!(!table.step(2));
    assert_eq!(table.actor(2).phase, Phase::Hungry);
    assert!(!table.is_held(2));
    // Philosopher 0 takes fork 1, eats, and gives back fork 1 and fork 0.
    assert!(table.step(0));
    assert!(table.is_held(1));
    assert_eq!(table.actor(0).phase, Phase::HoldingBoth);
    assert!(table.step(0));
    assert_eq!(table.actor(0).phase, Phase::Sated);
    assert!(table.is_held(0) && table.is_held(1));
    assert!(table.step(0));
    assert_eq!(table.actor(0).phase, Phase::Yielding);
    assert!(table.is_held(0) && !table.is_held(1));
    assert!(table.step(0));
    assert_eq!(table.actor(0).phase, Phase::Thinking);
    assert!(!table.is_held(0));
    // Now philosopher 2 is granted fork 0.
    assert!(table.step(2));
    assert_eq!(table.actor(2).phase, Phase::HoldingFirst);
    assert!(table.is_held(0));
}

struct Lcg(u64);

impl Lcg {
    fn next(&mut self, bound: usize) -> usize {
        self.0 = self.0.wrapping_mul(6364136223846793005).wrapping_add(1442695040888963407);
        ((self.0 >> 33) as usize) % bound
    }
}

#[test]
fn ten_thousand_cycles_round_robin() {
    let mut table = Table::new(6);
    let mut cycles = [0u32; 6];
    let mut rounds = 0u32;
    while cycles.iter().any(|&c| c < 10_000) {
        let mut moved = false;
        for a in 0..6 {
            if table.step(a) {
                moved = true;
                if table.actor(a).phase == Phase::Thinking {
                    cycles[a] += 1;
                }
            }
        }
        assert!(moved, "no philosopher could move");
        rounds += 1;
        assert!(rounds < 1_000_000);
    }
    for a in 0..6 {
        assert!(cycles[a] >= 10_000);
    }
}

#[test]
fn ten_thousand_cycles_random_schedules() {
    for seed in 1..=5u64 {
        let mut rng = Lcg(seed);
        let mut table = Table::new(6);
        let mut cycles = [0u32; 6];
        let mut steps = 0u64;
        while cycles.iter().any(|&c| c < 10_000) {
            let a = rng.next(6);
            if table.step(a) && table.actor(a).phase == Phase::Thinking {
                cycles[a] += 1;
            }
            let stuck = (0..6).all(|b| match table.actor(b).phase {
                Phase::Hungry => table.is_held(table.actor(b).first),
                Phase::HoldingFirst => table.is_held(table.actor(b).second),
                _ => false,
            });
            assert!(!stuck);
            steps += 1;
            assert!(steps < 50_000_000);
        }
        for a in 0..6 {
            assert!(cycles[a] > 0);
        }
    }
}

#[test]
fn no_fork_is_ever_held_twice() {
    let mut rng = Lcg(99);
    for count in 2..8usize {
        let mut table = Table::new(count);
        for _ in 0..20_000 {
            let a = rng.next(count);
            table.step(a);
            assert_exclusive(&table, count);
        }
    }
}

#[test]
fn all_hungry_at_once_does_not_lock_the_ring() {
    let mut table = Table::new(6);
    for _ in 0..2 {
        for a in 0..6 {
            table.step(a);
        }
    }
    // Philosophers 0 to 4 hold their own fork; the last one waits for fork 0.
    for a in 0..5 {
        assert_eq!(table.actor(a).phase, Phase::HoldingFirst);
    }
    assert_eq!(table.actor(5).phase, Phase::Hungry);
    assert!(!table.is_held(5));
    // Philosopher 4 can take fork 5 and go on.
    assert!(table.step(4));
    assert_eq!(table.actor(4).phase, Phase::HoldingBoth);
}

#[test]
fn without_the_reversal_the_ring_locks_up() {
    let pairs: Vec<(usize, usize)> = (0..6).map(|n| (n, (n + 1) % 6)).collect();
    let mut table = Table::seat(ForkSet::new(6), &pairs).unwrap();
    for _ in 0..2 {
        for a in 0..6 {
            assert!(table.step(a));
        }
    }
    for a in 0..6 {
        assert_eq!(table.actor(a).phase, Phase::HoldingFirst);
        assert!(table.is_held(a));
    }
    for a in 0..6 {
        assert!(!table.step(a));
    }
}

#[test]
fn seat_refuses_forks_that_are_not_there() {
    assert!(Table::seat(ForkSet::new(2), &vec![(0, 1), (1, 2)]).is_none());
    assert!(Table::seat(ForkSet::new(3), &vec![(3, 0)]).is_none());
    assert!(Table::seat(ForkSet::new(3), &vec![(0, 1), (1, 2)]).is_some());
    assert!(Table::seat(ForkSet::new(0), &vec![]).is_some());
    assert!(Table::seat(ForkSet::new(0), &vec![(0, 0)]).is_none());
}

#[test]
fn seat_refuses_forks_that_are_held() {
    let mut forks = ForkSet::new(3);
    assert!(forks.try_take(2));
    assert!(Table::seat(forks, &vec![(0, 1)]).is_none());
    let mut forks = ForkSet::new(3);
    assert!(forks.try_take(2));
    forks.release(2);
    assert!(Table::seat(forks, &vec![(0, 1)]).is_some());
}

#[test]
fn seat_gives_the_pairs_in_order() {
    let pairs = vec![(2, 0), (1, 1)];
    let table = Table::seat(ForkSet::new(3), &pairs).unwrap();
    assert_eq!(table.len(), 2);
    assert_eq!(table.actor(0), Actor { id: 0, first: 2, second: 0, phase: Phase::Thinking });
    assert_eq!(table.actor(1), Actor { id: 1, first: 1, second: 1, phase: Phase::Thinking });
    for r in 0..3 {
        assert!(!table.is_held(r));
    }
}

#[test]
fn ring_over_a_fork_mask() {
    let pairs: Vec<(usize, usize)> = (0..6).map(|n| fork_pair(n, 6)).collect();
    let mut table = Table::seat(ForkMask::new(6).unwrap(), &pairs).unwrap();
    let mut ring = Table::new(6);
    let mut rng = Lcg(7);
    let mut cycles = [0u32; 6];
    for _ in 0..100_000 {
        let a = rng.next(6);
        let moved = table.step(a);
        assert_eq!(moved, ring.step(a));
        if moved && table.actor(a).phase == Phase::Thinking {
            cycles[a] += 1;
        }
        for b in 0..6 {
            assert_eq!(table.actor(b), ring.actor(b));
            assert_eq!(table.is_held(b), ring.is_held(b));
        }
        assert_exclusive(&table, 6);
    }
    for a in 0..6 {
        assert!(cycles[a] > 0);
    }
}

#[test]
fn a_lone_philosopher_waits_for_its_own_fork() {
    let mut table = Table::new(1);
    assert!(table.step(0));
    assert!(table.step(0));
    assert_eq!(table.actor(0).phase, Phase::HoldingFirst);
    assert!(!table.step(0));
    assert_eq!(table.actor(0).phase, Phase::HoldingFirst);
}
