//! Difficulty retargeting: every `RETARGET_INTERVAL` blocks the required
//! number of leading zero hex digits is scaled by how far the actual time
//! taken for the window strayed from the target, by at most a factor of four.

use vstd::prelude::*;
use vstd::arithmetic::div_mod::*;

verus! {

pub const RETARGET_INTERVAL: u64 = 2016;

pub const TARGET_BLOCK_TIME_SECS: u64 = 600;

pub const TARGET_TIMESPAN: u64 = RETARGET_INTERVAL * TARGET_BLOCK_TIME_SECS;

pub const MAX_ADJUSTMENT_FACTOR: u64 = 4;

pub const MIN_DIFFICULTY: usize = 1;

pub const MAX_DIFFICULTY: usize = 64;

/// `x` limited to the range `[lo, hi]`.
pub open spec fn clamp(x: int, lo: int, hi: int) -> int {
    if x < lo {
        lo
    } else if x > hi {
        hi
    } else {
        x
    }
}

/// The timespan that the adjustment is computed from: the actual one,
/// limited to a quarter and four times the target.
pub open spec fn clamped_timespan(actual: int) -> int {
    clamp(
        actual,
        (TARGET_TIMESPAN / MAX_ADJUSTMENT_FACTOR) as int,
        (TARGET_TIMESPAN * MAX_ADJUSTMENT_FACTOR) as int,
    )
}

/// The difficulty scaled by target / actual in thousandths, rounded half up,
/// then limited to `[MIN_DIFFICULTY, MAX_DIFFICULTY]`.
pub open spec fn next_difficulty(current: int, actual: int) -> int {
    let scaled = current * 1000 * TARGET_TIMESPAN / clamped_timespan(actual);
    clamp((scaled + 500) / 1000, MIN_DIFFICULTY as int, MAX_DIFFICULTY as int)
}

/// Whether the arithmetic of a retarget from `current` stays within `u64`.
pub open spec fn retarget_fits(current: int) -> bool {
    current * 1000 * TARGET_TIMESPAN <= u64::MAX
}

/// A window that took exactly the target time leaves any difficulty in
/// `[MIN_DIFFICULTY, MAX_DIFFICULTY]` unchanged.
pub proof fn law_unchanged_on_target(current: int)
    requires
        MIN_DIFFICULTY <= current <= MAX_DIFFICULTY,
    ensures
        next_difficulty(current, TARGET_TIMESPAN as int) == current,
{
    let tt = TARGET_TIMESPAN as int;
    assert(clamped_timespan(tt) == tt);
    assert(current * 1000 * tt / tt == current * 1000) by (nonlinear_arith)
        requires
            tt > 0,
    ;
}

/// One retarget at most quadruples the difficulty (or lifts it to the minimum).
pub proof fn law_at_most_fourfold(current: int, actual: int)
    requires
        current >= 0,
    ensures
        next_difficulty(current, actual) <= if 4 * current > MIN_DIFFICULTY {
            4 * current
        } else {
            MIN_DIFFICULTY as int
        },
{
    let k = clamped_timespan(actual);
    let p = current * 1000 * TARGET_TIMESPAN;
    assert(k >= 302400);
    assert(p >= 0) by (nonlinear_arith)
        requires
            current >= 0,
            p == current * 1000 * 1209600,
    ;
    lemma_div_is_ordered_by_denominator(p, 302400, k);
    assert(p / 302400 == 4000 * current) by (nonlinear_arith)
        requires
            p == current * 1000 * 1209600,
    ;
}

/// One retarget at least quarters the difficulty (or caps it at the maximum).
pub proof fn law_at_least_quarter(current: int, actual: int)
    requires
        current >= 0,
    ensures
        next_difficulty(current, actual) >= if current / 4 < MAX_DIFFICULTY {
            current / 4
        } else {
            MAX_DIFFICULTY as int
        },
{
    let k = clamped_timespan(actual);
    let p = current * 1000 * TARGET_TIMESPAN;
    assert(k <= 4838400);
    assert(p >= 0) by (nonlinear_arith)
        requires
            current >= 0,
            p == current * 1000 * 1209600,
    ;
    lemma_div_is_ordered_by_denominator(p, k, 4838400);
    assert(p / 4838400 == 250 * current) by (nonlinear_arith)
        requires
            p == current * 1000 * 1209600,
    ;
}

/// A window mined faster never yields a lower difficulty than a slower one.
pub proof fn law_faster_never_easier(current: int, faster: int, slower: int)
    requires
        current >= 0,
        faster <= slower,
    ensures
        next_difficulty(current, faster) >= next_difficulty(current, slower),
{
    let p = current * 1000 * TARGET_TIMESPAN;
    assert(p >= 0) by (nonlinear_arith)
        requires
            current >= 0,
            p == current * 1000 * 1209600,
    ;
    lemma_div_is_ordered_by_denominator(p, clamped_timespan(faster), clamped_timespan(slower));
    lemma_div_is_ordered(p / clamped_timespan(slower) + 500, p / clamped_timespan(faster) + 500, 1000);
}

pub fn calculate_next_difficulty(current_difficulty: usize, actual_timespan: u64) -> (r: usize)
    requires
        retarget_fits(current_difficulty as int),
    ensures
        r == next_difficulty(current_difficulty as int, actual_timespan as int),
        MIN_DIFFICULTY <= r <= MAX_DIFFICULTY,
{
    let lo: u64 = TARGET_TIMESPAN / MAX_ADJUSTMENT_FACTOR;
    let hi: u64 = TARGET_TIMESPAN * MAX_ADJUSTMENT_FACTOR;
    let clamped: u64 = if actual_timespan < lo {
        lo
    } else if actual_timespan > hi {
        hi
    } else {
        actual_timespan
    };
    let cur: u64 = current_difficulty as u64;
    assert(cur * 1000 * TARGET_TIMESPAN <= u64::MAX);
    let product: u64 = cur * 1000 * TARGET_TIMESPAN;
    let scaled: u64 = product / clamped;
    assert(scaled <= product) by (nonlinear_arith)
        requires
            scaled == product / clamped,
            clamped >= 1,
    ;
    assert(scaled <= 4000 * cur) by (nonlinear_arith)
        requires
            scaled == product / clamped,
            product == cur * 1000 * 1209600,
            clamped >= 302400,
    ;
    let rounded: u64 = (scaled + 500) / 1000;
    let limited: u64 = if rounded < MIN_DIFFICULTY as u64 {
        MIN_DIFFICULTY as u64
    } else if rounded > MAX_DIFFICULTY as u64 {
        MAX_DIFFICULTY as u64
    } else {
        rounded
    };
    limited as usize
}

pub fn is_retarget_block(height: u64) -> (r: bool)
    ensures
        r == (height > 0 && height % RETARGET_INTERVAL == 0),
{
    height > 0 && height % RETARGET_INTERVAL == 0
}

} // verus!
