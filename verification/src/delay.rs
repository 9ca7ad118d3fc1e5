//! Pseudo-random pauses derived from a tick counter.
//!
//! A worker pauses for a whole number of periods. The number is drawn from
//! the current tick and the worker's id, so that workers that look at the
//! clock together still pause for different times, and it is never zero.

use vstd::arithmetic::div_mod::lemma_add_mod_noop;
use vstd::arithmetic::div_mod::lemma_mod_multiples_basic;
use vstd::arithmetic::div_mod::lemma_mul_mod_noop;
use vstd::prelude::*;

verus! {

/// How many ticks make one unit of the counter that the pauses are drawn from.
pub const TICKS_PER_UNIT: usize = 100;

/// The number of distinct pauses. A pause lasts between one period and this
/// many periods.
pub const DELAY_SLOTS: usize = 32;

/// The slot that worker `id` draws at `tick`: the tick counter in coarse
/// units, scaled by the worker's id counted from one, reduced to the number
/// of slots. The product is the mathematical one; it does not wrap.
pub open spec fn delay_slot(id: usize, tick: usize) -> int {
    ((tick / TICKS_PER_UNIT) * (id + 1)) % (DELAY_SLOTS as int)
}

/// The pause of worker `id` at `tick`, in milliseconds: one period more than
/// its slot counts, so it is never zero.
pub open spec fn random_delay(id: usize, period: usize, tick: usize) -> int {
    (delay_slot(id, tick) + 1) * period
}

/// The slot of a worker is below the number of slots, whatever the tick.
pub proof fn lemma_delay_slot_bounds(id: usize, tick: usize)
    ensures
        0 <= delay_slot(id, tick) < DELAY_SLOTS,
{
}

/// Every pause is a positive whole number of periods, at least one and at
/// most `DELAY_SLOTS` of them.
pub proof fn lemma_random_delay_bounds(id: usize, period: usize, tick: usize)
    ensures
        period <= random_delay(id, period, tick) <= DELAY_SLOTS * period,
        period > 0 ==> random_delay(id, period, tick) % (period as int) == 0,
{
    let k = delay_slot(id, tick) + 1;
    assert(1 <= k <= 32);
    assert(period <= k * period <= 32 * period) by (nonlinear_arith)
        requires
            1 <= k <= 32,
            0 <= period,
    ;
    if period > 0 {
        lemma_mod_multiples_basic(k, period as int);
    }
}

/// The pause of worker `id` at `tick`, in milliseconds, for pauses that are
/// multiples of `period` milliseconds.
pub fn get_random_delay(id: usize, period: usize, tick: usize) -> (millis: u64)
    requires
        DELAY_SLOTS * period <= u64::MAX,
    ensures
        millis == random_delay(id, period, tick),
        period <= millis <= DELAY_SLOTS * period,
{
    let units: usize = tick / TICKS_PER_UNIT;
    let scale: usize = id % DELAY_SLOTS + 1;
    let low: usize = units % DELAY_SLOTS;
    assert(low * scale <= 31 * 32) by (nonlinear_arith)
        requires
            0 <= low <= 31,
            0 <= scale <= 32,
    ;
    let slot: usize = (low * scale) % DELAY_SLOTS;
    proof {
        let m = DELAY_SLOTS as int;
        lemma_add_mod_noop(id as int, 1, m);
        assert(scale as int % m == (id + 1) % m);
        lemma_mul_mod_noop(units as int, id + 1, m);
        lemma_mul_mod_noop(low as int, scale as int, m);
        assert(slot == delay_slot(id, tick));
        lemma_random_delay_bounds(id, period, tick);
    }
    let count: u64 = slot as u64 + 1;
    assert(count * period <= 32 * period) by (nonlinear_arith)
        requires
            1 <= count <= 32,
            0 <= period,
    ;
    count * (period as u64)
}

} // verus!
