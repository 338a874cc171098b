//! Axes and tick planning.
//!
//! A continuous axis owns a validated range and a set of "nice" tick
//! positions derived from it. Tick positions are multiples of a step
//! of the form `{1,2,4,5} * 10^n`, chosen so that at most `max_ticks`
//! ticks fall inside the range, spaced as widely as that allows.
//!
//! All positions are exact fixed-point numbers ([`crate::fixed::Fixed`]),
//! so the planned ticks are exactly the integer multiples of the step
//! that lie inside the range — no rounding pass is needed.

use vstd::prelude::*;
use vstd::arithmetic::div_mod::*;
use vstd::arithmetic::mul::*;

use crate::fixed::Fixed;
use crate::fixed::MAX_UNITS;
use crate::fixed::pow10;
use crate::fixed::lemma_pow10_pos;
use crate::fixed::lemma_pow10_adds;
use crate::fixed::lemma_pow10_increases;

verus! {

/// A step size, in units, of the "nice" family `{1,2,4,5} * 10^n`.
pub open spec fn is_nice_step(s: int) -> bool {
    exists|q: nat|
        s == #[trigger] pow10(q) || s == 2 * pow10(q) || s == 4 * pow10(q) || s == 5 * pow10(q)
}

proof fn lemma_nice_step_pos(s: int)
    requires
        is_nice_step(s),
    ensures
        s >= 1,
{
    let q = choose|q: nat|
        s == #[trigger] pow10(q) || s == 2 * pow10(q) || s == 4 * pow10(q) || s == 5 * pow10(q);
    lemma_pow10_pos(q);
}

/// The smallest nice step strictly above `s`.
///
/// Steps within one power of ten step up through the factors
/// `1 -> 2 -> 4 -> 5`; after `5` comes the next power of ten.
fn nice_succ(s: i128) -> (r: i128)
    requires
        is_nice_step(s as int),
        s <= 4 * MAX_UNITS,
    ensures
        is_nice_step(r as int),
        s < r <= 2 * s,
        forall|t: int| is_nice_step(t) && t > s ==> t >= r,
{
    proof {
        lemma_nice_step_pos(s as int);
    }
    let mut t: u128 = s as u128;
    let mut p: u128 = 1;
    let ghost mut z: nat = 0nat;
    while t % 10 == 0
        invariant
            1 <= t <= s,
            s as int == t * p,
            is_nice_step(t as int),
            p == pow10(z),
            1 <= s <= 4 * MAX_UNITS,
            is_nice_step(s as int),
        decreases t,
    {
        let t2: u128 = t / 10;
        proof {
            let q = choose|q: nat|
                t == #[trigger] pow10(q) || t == 2 * pow10(q) || t == 4 * pow10(q) || t == 5
                    * pow10(q);
            lemma_pow10_pos(q);
            if q == 0 {
                // a bare factor 1, 2, 4 or 5 is not divisible by ten
                assert(t == 1 || t == 2 || t == 4 || t == 5);
                assert(false);
            }
            let b = if t == pow10(q) {
                1int
            } else if t == 2 * pow10(q) {
                2int
            } else if t == 4 * pow10(q) {
                4int
            } else {
                5int
            };
            lemma_pow10_pos((q - 1) as nat);
            assert(pow10(q) == 10 * pow10((q - 1) as nat));
            assert(t == (b * pow10((q - 1) as nat)) * 10) by (nonlinear_arith)
                requires
                    t == b * pow10(q),
                    pow10(q) == 10 * pow10((q - 1) as nat),
            ;
            lemma_div_multiples_vanish(b * pow10((q - 1) as nat), 10);
            assert(t2 == b * pow10((q - 1) as nat));
            assert(is_nice_step(t2 as int)) by {
                assert(t2 == b * pow10((q - 1) as nat));
            }
            assert(s as int == t2 * (p * 10)) by (nonlinear_arith)
                requires
                    s as int == t * p,
                    t == t2 * 10,
            ;
            lemma_pow10_adds(z, 1);
            lemma_pow10_pos((q - 1) as nat);
            assert(t2 >= 1) by (nonlinear_arith)
                requires
                    t2 == b * pow10((q - 1) as nat),
                    b >= 1,
                    pow10((q - 1) as nat) >= 1,
            ;
            assert(10 * p <= s) by (nonlinear_arith)
                requires
                    s as int == t2 * (10 * p),
                    t2 >= 1,
                    p >= 1,
            ;
            z = z + 1;
        }
        t = t2;
        p = p * 10;
    }
    proof {
        // not divisible by ten, so the power of ten in t is 10^0
        let q = choose|q: nat|
            t == #[trigger] pow10(q) || t == 2 * pow10(q) || t == 4 * pow10(q) || t == 5 * pow10(
                q,
            );
        lemma_pow10_pos(q);
        if q > 0 {
            let b = if t == pow10(q) {
                1int
            } else if t == 2 * pow10(q) {
                2int
            } else if t == 4 * pow10(q) {
                4int
            } else {
                5int
            };
            lemma_pow10_pos((q - 1) as nat);
            assert(pow10(q) == 10 * pow10((q - 1) as nat));
            assert(t == (b * pow10((q - 1) as nat)) * 10) by (nonlinear_arith)
                requires
                    t == b * pow10(q),
                    pow10(q) == 10 * pow10((q - 1) as nat),
            ;
            lemma_mod_multiples_basic(b * pow10((q - 1) as nat), 10);
            assert(false);
        }
        assert(t == 1 || t == 2 || t == 4 || t == 5);
    }
    let r: u128 = if t == 1 {
        2 * p
    } else if t == 2 {
        4 * p
    } else if t == 4 {
        5 * p
    } else {
        10 * p
    };
    proof {
        lemma_pow10_pos(z);
        assert(p <= s as int) by (nonlinear_arith)
            requires
                s as int == t * p,
                t >= 1,
                p >= 1,
        ;
        assert(is_nice_step(r as int)) by {
            if t == 5 {
                lemma_pow10_adds(z, 1);
                assert(r == pow10(z + 1));
            }
        }
        assert(s < r <= 2 * s);
        lemma_nice_succ_gap(s as int, r as int, t as int, p as int, z);
    }
    r as i128
}

/// No nice step falls strictly between a nice step `b * 10^z` and its
/// successor.
proof fn lemma_nice_succ_gap(s: int, r: int, b: int, p: int, z: nat)
    requires
        b == 1 || b == 2 || b == 4 || b == 5,
        p == pow10(z),
        s == b * p,
        r == if b == 1 {
            2 * p
        } else if b == 2 {
            4 * p
        } else if b == 4 {
            5 * p
        } else {
            10 * p
        },
    ensures
        forall|t: int| is_nice_step(t) && t > s ==> t >= r,
{
    lemma_pow10_pos(z);
    assert forall|t: int| is_nice_step(t) && t > s implies t >= r by {
        let q2 = choose|q2: nat|
            t == #[trigger] pow10(q2) || t == 2 * pow10(q2) || t == 4 * pow10(q2) || t == 5
                * pow10(q2);
        lemma_pow10_pos(q2);
        let b2 = if t == pow10(q2) {
            1int
        } else if t == 2 * pow10(q2) {
            2int
        } else if t == 4 * pow10(q2) {
            4int
        } else {
            5int
        };
        if q2 == z {
            // same power of ten: the factor must step up
            assert(b2 * p > b * p);
            assert(b2 > b) by (nonlinear_arith)
                requires
                    b2 * p > b * p,
                    p >= 1,
            ;
        } else if q2 > z {
            // a higher power of ten is at least 10 * 10^z >= r
            lemma_pow10_increases(z + 1, q2);
            lemma_pow10_adds(z, 1);
            assert(t >= pow10(q2)) by (nonlinear_arith)
                requires
                    t == b2 * pow10(q2),
                    b2 >= 1,
                    pow10(q2) >= 1,
            ;
            assert(t >= 10 * p);
        } else {
            // a lower power of ten tops out at 5 * 10^(z-1), below s
            lemma_pow10_increases(q2 + 1, z);
            lemma_pow10_adds(q2, 1);
            assert(t <= 5 * pow10(q2)) by (nonlinear_arith)
                requires
                    t == b2 * pow10(q2),
                    b2 <= 5,
                    pow10(q2) >= 1,
            ;
            assert(2 * t <= pow10(q2 + 1));
            assert(t < s);
            assert(false);
        }
    }
}

/// Index of the first tick: the smallest `k` with `k * step >= lower`.
pub open spec fn tick_lo(lower: int, step: int) -> int {
    -((-lower) / step)
}

/// Index of the last tick: the largest `k` with `k * step <= upper`.
pub open spec fn tick_hi(upper: int, step: int) -> int {
    upper / step
}

/// How many multiples of `step` lie inside `[lower, upper]`.
pub open spec fn tick_count(lower: int, upper: int, step: int) -> int {
    if tick_hi(upper, step) >= tick_lo(lower, step) {
        tick_hi(upper, step) - tick_lo(lower, step) + 1
    } else {
        0
    }
}

/// Floor and ceiling of `n / d` agree with the spec-level Euclidean
/// quotients used by `tick_lo` and `tick_hi`.
proof fn lemma_neg_div(n: int, d: int)
    requires
        n >= 0,
        d >= 1,
    ensures
        (-n) / d == -((n + d - 1) / d),
{
    let q = n / d;
    let r = n % d;
    lemma_fundamental_div_mod(n, d);
    assert(n == d * q + r);
    if r == 0 {
        assert(d * (-q) == -(d * q)) by (nonlinear_arith);
        lemma_div_multiples_vanish(-q, d);
        lemma_div_multiples_vanish_fancy(q, d - 1, d);
        assert(d * q + (d - 1) == n + d - 1);
    } else {
        assert((-q - 1) * d + (d - r) == -(d * q + r)) by (nonlinear_arith);
        lemma_fundamental_div_mod_converse(-n, d, -q - 1, d - r);
        assert((q + 1) * d + (r - 1) == d * q + r + d - 1) by (nonlinear_arith);
        lemma_fundamental_div_mod_converse(n + d - 1, d, q + 1, r - 1);
    }
}

/// Dividing a negative number by a positive one moves it toward zero.
proof fn lemma_div_neg_bound(m: int, d: int)
    requires
        m >= 0,
        d >= 1,
    ensures
        (-m) / d >= -m,
{
    let q = (-m) / d;
    let r = (-m) % d;
    lemma_fundamental_div_mod(-m, d);
    assert(-m == d * q + r);
    if q < -m {
        assert(d * q <= d * (-m - 1)) by (nonlinear_arith)
            requires
                q <= -m - 1,
                d >= 1,
        ;
        assert(d * (-m - 1) == -(d * m) - d) by (nonlinear_arith);
        assert(d * m >= m) by (nonlinear_arith)
            requires
                m >= 0,
                d >= 1,
        ;
        assert(r == -m - d * q);
        assert(r >= -m + d * m + d);
        assert(r >= d);
        assert(false);
    }
}

/// The quotient of nonnegative `n / d`, exact per the Euclidean spec.
fn floor_div_nonneg(n: i128, d: i128) -> (r: i128)
    requires
        0 <= n,
        1 <= d,
    ensures
        r == n as int / d as int,
{
    ((n as u128) / (d as u128)) as i128
}

/// `tick_lo` made executable: the ceiling of `lower / step`.
fn tick_lo_exec(lower: i128, step: i128) -> (r: i128)
    requires
        -MAX_UNITS <= lower <= MAX_UNITS,
        1 <= step <= 4 * MAX_UNITS,
    ensures
        r == tick_lo(lower as int, step as int),
{
    if lower >= 0 {
        let q = floor_div_nonneg(lower + step - 1, step);
        proof {
            lemma_neg_div(lower as int, step as int);
        }
        q
    } else {
        -floor_div_nonneg(-lower, step)
    }
}

/// `tick_hi` made executable: the floor of `upper / step`.
fn tick_hi_exec(upper: i128, step: i128) -> (r: i128)
    requires
        -MAX_UNITS <= upper <= MAX_UNITS,
        1 <= step <= 4 * MAX_UNITS,
    ensures
        r == tick_hi(upper as int, step as int),
{
    if upper >= 0 {
        floor_div_nonneg(upper, step)
    } else {
        let q = floor_div_nonneg(-upper + step - 1, step);
        proof {
            lemma_neg_div(-upper as int, step as int);
        }
        -q
    }
}

/// `tick_count` made executable.
fn count_ticks_units(lower: i128, upper: i128, step: i128) -> (r: u128)
    requires
        -MAX_UNITS <= lower <= MAX_UNITS,
        -MAX_UNITS <= upper <= MAX_UNITS,
        1 <= step <= 4 * MAX_UNITS,
    ensures
        r == tick_count(lower as int, upper as int, step as int),
        r <= 2 * MAX_UNITS + 1,
{
    let lo = tick_lo_exec(lower, step);
    let hi = tick_hi_exec(upper, step);
    proof {
        lemma_div_is_ordered(-MAX_UNITS as int, -lower as int, step as int);
        lemma_div_is_ordered(-lower as int, MAX_UNITS as int, step as int);
        lemma_div_is_ordered(-MAX_UNITS as int, upper as int, step as int);
        lemma_div_is_ordered(upper as int, MAX_UNITS as int, step as int);
        lemma_div_nonincreasing(MAX_UNITS as int, step as int);
        lemma_div_neg_bound(MAX_UNITS as int, step as int);
    }
    if hi >= lo {
        (hi - lo + 1) as u128
    } else {
        0
    }
}

/// The first tick is at or above `lower`, the last at or below `upper`.
proof fn lemma_tick_bounds(lower: int, upper: int, step: int)
    requires
        step >= 1,
    ensures
        tick_lo(lower, step) * step >= lower,
        tick_hi(upper, step) * step <= upper,
{
    lemma_fundamental_div_mod(-lower, step);
    let q = (-lower) / step;
    assert(-lower == step * q + (-lower) % step);
    assert((-q) * step == -(step * q)) by (nonlinear_arith);
    lemma_fundamental_div_mod(upper, step);
    let h = upper / step;
    assert(upper == step * h + upper % step);
    assert(h * step == step * h) by (nonlinear_arith);
}

/// Two or more ticks only fit when the step is no wider than the range.
proof fn lemma_count_two_span(lower: int, upper: int, step: int)
    requires
        step >= 1,
        tick_count(lower, upper, step) >= 2,
    ensures
        step <= upper - lower,
{
    let lo = tick_lo(lower, step);
    let hi = tick_hi(upper, step);
    lemma_tick_bounds(lower, upper, step);
    assert(hi >= lo + 1);
    assert(hi * step - lo * step >= step) by (nonlinear_arith)
        requires
            hi >= lo + 1,
            step >= 1,
    ;
}

/// A step wider than every magnitude in the range leaves at most one
/// tick (zero itself, when the range spans it).
proof fn lemma_big_step_few_ticks(lower: int, upper: int, step: int, maxmag: int)
    requires
        step > maxmag,
        maxmag >= -lower,
        maxmag >= upper,
        lower <= upper,
        maxmag >= 0,
    ensures
        tick_count(lower, upper, step) <= 1,
{
    if upper >= 0 {
        lemma_basic_div(upper, step);
        assert(tick_hi(upper, step) == 0);
    } else {
        lemma_fundamental_div_mod_converse(upper, step, -1, step + upper);
        assert(tick_hi(upper, step) == -1);
    }
    if lower <= 0 {
        lemma_basic_div(-lower, step);
        assert(tick_lo(lower, step) == 0);
    } else {
        lemma_fundamental_div_mod_converse(-lower, step, -1, step - lower);
        assert(tick_lo(lower, step) == 1);
    }
}

/// The tick positions for a given range and step: every multiple of
/// the step that lies inside the range, in ascending order.
///
/// The positions are exact, so no rounding pass is needed to clean
/// them up afterwards.
pub fn generate_ticks(min: Fixed, max: Fixed, step_size: Fixed) -> (r: Vec<Fixed>)
    requires
        min.in_range(),
        max.in_range(),
        1 <= step_size.units <= 4 * MAX_UNITS,
        tick_count(min.units as int, max.units as int, step_size.units as int) <= usize::MAX,
    ensures
        r@.len() == tick_count(min.units as int, max.units as int, step_size.units as int),
        forall|i: int|
            0 <= i < r@.len() ==> r@[i].units == (tick_lo(min.units as int, step_size.units as int)
                + i) * step_size.units,
        forall|i: int| 0 <= i < r@.len() ==> min.units <= #[trigger] r@[i].units <= max.units,
        forall|i: int, j: int| 0 <= i < j < r@.len() ==> r@[i].units < r@[j].units,
{
    let lower = min.units;
    let upper = max.units;
    let step = step_size.units;
    let lo = tick_lo_exec(lower, step);
    let hi = tick_hi_exec(upper, step);
    proof {
        lemma_tick_bounds(lower as int, upper as int, step as int);
        lemma_div_is_ordered(-MAX_UNITS as int, -lower as int, step as int);
        lemma_div_is_ordered(-lower as int, MAX_UNITS as int, step as int);
        lemma_div_is_ordered(-MAX_UNITS as int, upper as int, step as int);
        lemma_div_is_ordered(upper as int, MAX_UNITS as int, step as int);
        lemma_div_nonincreasing(MAX_UNITS as int, step as int);
        lemma_div_neg_bound(MAX_UNITS as int, step as int);
        assert(-MAX_UNITS <= lo <= MAX_UNITS);
        assert(-MAX_UNITS <= hi <= MAX_UNITS);
    }
    let mut ticks: Vec<Fixed> = Vec::new();
    if hi >= lo {
        let mut k: i128 = lo;
        while k <= hi
            invariant
                lo <= k <= hi + 1,
                -MAX_UNITS <= lo,
                hi <= MAX_UNITS,
                lo * step >= lower,
                hi * step <= upper,
                lower >= -MAX_UNITS,
                upper <= MAX_UNITS,
                1 <= step,
                ticks@.len() == k - lo,
                forall|i: int| 0 <= i < ticks@.len() ==> ticks@[i].units == (lo + i) * step,
            decreases hi + 1 - k,
        {
            proof {
                lemma_mul_inequality(lo as int, k as int, step as int);
                lemma_mul_inequality(k as int, hi as int, step as int);
            }
            let t: i128 = k * step;
            ticks.push(Fixed { units: t });
            k = k + 1;
        }
    }
    proof {
        assert forall|i: int, j: int| 0 <= i < j < ticks@.len() implies ticks@[i].units
            < ticks@[j].units by {
            lemma_mul_strict_inequality(lo as int + i, lo as int + j, step as int);
        }
        assert forall|i: int| 0 <= i < ticks@.len() implies min.units <= #[trigger] ticks@[i].units
            <= max.units by {
            lemma_mul_inequality(lo as int, lo as int + i, step as int);
            lemma_mul_inequality(lo as int + i, tick_hi(upper as int, step as int), step as int);
        }
    }
    ticks
}

/// How many ticks a given step would place inside `[min, max]`.
pub fn number_of_ticks(min: Fixed, max: Fixed, step_size: Fixed) -> (r: usize)
    requires
        min.in_range(),
        max.in_range(),
        1 <= step_size.units <= 4 * MAX_UNITS,
        tick_count(min.units as int, max.units as int, step_size.units as int) <= usize::MAX,
    ensures
        r == tick_count(min.units as int, max.units as int, step_size.units as int),
{
    let c = count_ticks_units(min.units, max.units, step_size.units);
    c as usize
}

/// `s` is the smallest nice step at or above `v`.
pub open spec fn smallest_nice_at_least(v: int, s: int) -> bool {
    &&& is_nice_step(s)
    &&& s >= v
    &&& forall|t: int| is_nice_step(t) && t >= v ==> t >= s
}

/// The lower bound for the step search: the ceiling of
/// `(upper - lower) / max_ticks`, the narrowest spacing that could
/// still fit within the tick budget.
pub open spec fn min_step_units(lower: int, upper: int, max_ticks: int) -> int {
    -((-(upper - lower)) / max_ticks)
}

/// `s1` is the first nice step, searching upward from the smallest
/// nice step at or above `min_step_units`, whose tick count fits the
/// budget.
pub open spec fn first_fitting_step(lower: int, upper: int, max_ticks: int, s1: int) -> bool {
    exists|s0: int|
        {
            &&& #[trigger] smallest_nice_at_least(min_step_units(lower, upper, max_ticks), s0)
            &&& is_nice_step(s1)
            &&& s1 >= s0
            &&& tick_count(lower, upper, s1) <= max_ticks
            &&& forall|t: int|
                is_nice_step(t) && s0 <= t < s1 ==> tick_count(lower, upper, t) > max_ticks
        }
}

/// Every nice step between `s1` and `s2` yields the same tick count.
pub open spec fn step_run_equal(lower: int, upper: int, s1: int, s2: int) -> bool {
    forall|t: int|
        is_nice_step(t) && s1 <= t <= s2 ==> #[trigger] tick_count(lower, upper, t) == tick_count(
            lower,
            upper,
            s1,
        )
}

/// The smallest nice step at or above `v`.
fn nice_start_at_units(v: i128) -> (r: i128)
    requires
        1 <= v <= 2 * MAX_UNITS,
    ensures
        smallest_nice_at_least(v as int, r as int),
        1 <= r <= 2 * v,
{
    let mut s: i128 = 1;
    proof {
        assert(is_nice_step(1)) by {
            assert(pow10(0) == 1);
        }
    }
    while s < v
        invariant
            is_nice_step(s as int),
            1 <= s < 2 * v,
            v <= 2 * MAX_UNITS,
            forall|t: int| is_nice_step(t) && t >= v ==> t >= s,
        decreases (if s < v {
            v - s
        } else {
            0int
        }),
    {
        s = nice_succ(s);
    }
    s
}

/// The largest magnitude either end of the range reaches.
pub open spec fn max_mag(lower: int, upper: int) -> int {
    if -lower > upper {
        -lower
    } else {
        upper
    }
}

/// The step the ticks of `[min, max]` are placed at: searching upward
/// through the nice steps from the narrowest spacing that could fit,
/// the first step whose tick count fits the `max_ticks` budget, then
/// widened as long as the tick count stays the same.
pub fn calculate_tick_step_for_range(min: Fixed, max: Fixed, max_ticks: usize) -> (r: Fixed)
    requires
        min.in_range(),
        max.in_range(),
        min.units < max.units,
        1 <= max_ticks <= 10_000,
    ensures
        is_nice_step(r.units as int),
        1 <= r.units <= 4 * MAX_UNITS,
        tick_count(min.units as int, max.units as int, r.units as int) <= max_ticks,
        exists|s1: int|
            {
                &&& #[trigger] first_fitting_step(
                    min.units as int,
                    max.units as int,
                    max_ticks as int,
                    s1,
                )
                &&& s1 <= r.units
                &&& step_run_equal(min.units as int, max.units as int, s1, r.units as int)
            },
        // the step is run-maximal: the next nice step up either leaves
        // the search window or changes the tick count
        exists|nxt: int|
            {
                &&& #[trigger] is_nice_step(nxt)
                &&& nxt > r.units
                &&& forall|t: int| is_nice_step(t) && t > r.units ==> t >= nxt
                &&& (nxt > 4 * max_mag(min.units as int, max.units as int) || tick_count(
                    min.units as int,
                    max.units as int,
                    nxt,
                ) != tick_count(min.units as int, max.units as int, r.units as int))
            },
{
    let lower = min.units;
    let upper = max.units;
    let ghost l = lower as int;
    let ghost u = upper as int;
    let ghost mt = max_ticks as int;
    let span: i128 = upper - lower;
    let mtu: i128 = max_ticks as i128;
    // the narrowest spacing that could fit max_ticks ticks
    let v0: i128 = floor_div_nonneg(span + mtu - 1, mtu);
    proof {
        lemma_neg_div(span as int, mtu as int);
        assert(v0 == min_step_units(l, u, mt));
        lemma_div_pos_is_pos(span + mtu - 1, mtu as int);
        lemma_div_by_self(mtu as int);
        lemma_div_is_ordered(mtu as int, span + mtu - 1, mtu as int);
        assert(v0 >= 1);
        assert(span * (mtu - 1) >= 1 * (mtu - 1)) by (nonlinear_arith)
            requires
                span >= 1,
                mtu >= 1,
        ;
        lemma_div_is_ordered(span + mtu - 1, span + span * (mtu - 1), mtu as int);
        assert(span + span * (mtu - 1) == span * mtu) by (nonlinear_arith);
        lemma_div_multiples_vanish(span as int, mtu as int);
        assert(v0 <= span);
    }
    // the first nice step at or above that spacing
    let s0: i128 = nice_start_at_units(v0);
    let ghost maxmag = if -l > u {
        -l
    } else {
        u
    };
    // first phase: the first nice step whose tick count fits
    let mut s: i128 = s0;
    let mut c: u128 = count_ticks_units(lower, upper, s);
    while c > max_ticks as u128
        invariant
            is_nice_step(s as int),
            1 <= s0 <= s <= 4 * MAX_UNITS,
            c == tick_count(l, u, s as int),
            -MAX_UNITS <= lower,
            upper <= MAX_UNITS,
            lower < upper,
            1 <= max_ticks <= 10_000,
            l == lower as int,
            u == upper as int,
            mt == max_ticks as int,
            maxmag == if -l > u {
                -l
            } else {
                u
            },
            forall|t: int| is_nice_step(t) && s0 <= t < s ==> tick_count(l, u, t) > mt,
        decreases 4 * MAX_UNITS + 1 - s,
    {
        proof {
            lemma_nice_step_pos(s as int);
            lemma_count_two_span(l, u, s as int);
            assert(s <= upper - lower);
        }
        let s2 = nice_succ(s);
        proof {
            assert forall|t: int| is_nice_step(t) && s0 <= t < s2 implies tick_count(l, u, t)
                > mt by {
                if t > s {
                    assert(t >= s2);
                    assert(false);
                }
            }
        }
        s = s2;
        c = count_ticks_units(lower, upper, s);
    }
    let ghost s1 = s as int;
    let n1: u128 = c;
    proof {
        assert(first_fitting_step(l, u, mt, s1)) by {
            assert(smallest_nice_at_least(min_step_units(l, u, mt), s0 as int));
        }
    }
    // second phase: widen the step while the tick count stays the same
    let cap: i128 = 4 * if -lower > upper {
        -lower
    } else {
        upper
    };
    let ghost mut wit: int = 0;
    let mut done: bool = false;
    while !done
        invariant
            is_nice_step(s as int),
            1 <= s <= 4 * MAX_UNITS,
            s1 <= s <= cap || s == s1,
            cap == 4 * maxmag,
            1 <= maxmag <= MAX_UNITS,
            tick_count(l, u, s as int) == tick_count(l, u, s1),
            n1 == tick_count(l, u, s1),
            tick_count(l, u, s1) <= mt,
            step_run_equal(l, u, s1, s as int),
            first_fitting_step(l, u, mt, s1),
            -MAX_UNITS <= lower,
            upper <= MAX_UNITS,
            lower < upper,
            l == lower as int,
            u == upper as int,
            mt == max_ticks as int,
            maxmag == if -l > u {
                -l
            } else {
                u
            },
            maxmag == max_mag(l, u),
            done ==> is_nice_step(wit) && wit > s && (forall|t: int|
                is_nice_step(t) && t > s ==> t >= wit) && (wit > 4 * maxmag || tick_count(
                l,
                u,
                wit,
            ) != tick_count(l, u, s1)),
        decreases (if done {
            0int
        } else {
            1int
        }) + 2 * (if s <= cap {
            cap + 1 - s
        } else {
            0int
        }),
    {
        let s2 = nice_succ(s);
        if s2 > cap {
            proof {
                wit = s2 as int;
            }
            done = true;
        } else {
            let c2 = count_ticks_units(lower, upper, s2);
            if c2 == n1 {
                proof {
                    assert forall|t: int|
                        is_nice_step(t) && s1 <= t <= s2 implies #[trigger] tick_count(l, u, t)
                        == tick_count(l, u, s1) by {
                        if t > s {
                            assert(t >= s2);
                        }
                    }
                }
                s = s2;
            } else {
                proof {
                    wit = s2 as int;
                }
                done = true;
            }
        }
    }
    Fixed { units: s }
}

/// The sensible tick positions for the range `[min, max]`: the
/// multiples of the step picked by [`calculate_tick_step_for_range`]
/// that lie inside the range, in ascending order.
pub fn calculate_ticks(min: Fixed, max: Fixed, max_ticks: usize) -> (r: Vec<Fixed>)
    requires
        min.in_range(),
        max.in_range(),
        min.units < max.units,
        1 <= max_ticks <= 10_000,
    ensures
        planned_ticks(min.units as int, max.units as int, max_ticks as int, r@),
        r@.len() <= max_ticks,
        forall|i: int| 0 <= i < r@.len() ==> min.units <= #[trigger] r@[i].units <= max.units,
        forall|i: int, j: int| 0 <= i < j < r@.len() ==> r@[i].units < r@[j].units,
{
    let step = calculate_tick_step_for_range(min, max, max_ticks);
    let ticks = generate_ticks(min, max, step);
    proof {
        let l = min.units as int;
        let u = max.units as int;
        let mt = max_ticks as int;
        assert(planned_ticks(l, u, mt, ticks@)) by {
            assert(is_planning_step(l, u, mt, step.units as int)) by {
                let s1 = choose|s1: int|
                    {
                        &&& #[trigger] first_fitting_step(l, u, mt, s1)
                        &&& s1 <= step.units
                        &&& step_run_equal(l, u, s1, step.units as int)
                    };
                assert(tick_count(l, u, step.units as int) == tick_count(l, u, s1));
            }
        }
    }
    ticks
}

/// `s` is the step the planner chooses for this range: a nice step
/// whose tick count fits the budget, reached by the search that
/// starts at the narrowest fitting spacing and then widened through
/// the equal-count run as far as the search window allows.
pub open spec fn is_planning_step(lower: int, upper: int, max_ticks: int, s: int) -> bool {
    &&& is_nice_step(s)
    &&& tick_count(lower, upper, s) <= max_ticks
    &&& exists|s1: int|
        {
            &&& #[trigger] first_fitting_step(lower, upper, max_ticks, s1)
            &&& s1 <= s
            &&& step_run_equal(lower, upper, s1, s)
        }
    &&& exists|nxt: int|
        {
            &&& #[trigger] is_nice_step(nxt)
            &&& nxt > s
            &&& forall|t: int| is_nice_step(t) && t > s ==> t >= nxt
            &&& (nxt > 4 * max_mag(lower, upper) || tick_count(lower, upper, nxt) != tick_count(
                lower,
                upper,
                s,
            ))
        }
}

/// The tick sequence is exactly the multiples of some planning step
/// that lie inside the range, in ascending order.
pub open spec fn planned_ticks(lower: int, upper: int, max_ticks: int, ticks: Seq<Fixed>) -> bool {
    exists|s: int|
        {
            &&& #[trigger] is_planning_step(lower, upper, max_ticks, s)
            &&& ticks.len() == tick_count(lower, upper, s)
            &&& forall|i: int| 0 <= i < ticks.len() ==> ticks[i].units == (tick_lo(lower, s) + i) * s
        }
}

/// A negative number divided by a positive one stays negative.
proof fn lemma_neg_div_neg(x: int, d: int)
    requires
        x < 0,
        d >= 1,
    ensures
        x / d <= -1,
{
    lemma_fundamental_div_mod(x, d);
    let q = x / d;
    if q >= 0 {
        assert(d * q >= 0) by (nonlinear_arith)
            requires
                d >= 1,
                q >= 0,
        ;
        assert(false);
    }
}

/// A range that does not span zero holds a tick only for steps no
/// wider than its largest magnitude.
proof fn lemma_count_one_bound(lower: int, upper: int, step: int)
    requires
        step >= 1,
        tick_count(lower, upper, step) >= 1,
        !(lower <= 0 <= upper),
    ensures
        step <= max_mag(lower, upper),
{
    let lo = tick_lo(lower, step);
    let hi = tick_hi(upper, step);
    lemma_tick_bounds(lower, upper, step);
    if lower > 0 {
        lemma_neg_div_neg(-lower, step);
        assert(lo >= 1);
        assert(hi >= lo);
        assert(step * 1 <= step * hi) by (nonlinear_arith)
            requires
                1 <= hi,
                step >= 1,
        ;
        assert(step * hi == hi * step) by (nonlinear_arith);
    } else {
        lemma_neg_div_neg(upper, step);
        assert(hi <= -1);
        assert(lo <= hi);
        assert(lo * step <= (-1) * step) by (nonlinear_arith)
            requires
                lo <= -1,
                step >= 1,
        ;
        assert((-1) * step == -step) by (nonlinear_arith);
    }
}

/// On a range that spans zero, a single tick can only be zero itself.
proof fn lemma_span_single_tick(lower: int, upper: int, step: int)
    requires
        step >= 1,
        lower <= 0 <= upper,
        tick_count(lower, upper, step) == 1,
    ensures
        tick_lo(lower, step) == 0,
        tick_hi(upper, step) == 0,
{
    lemma_div_pos_is_pos(-lower, step);
    lemma_div_pos_is_pos(upper, step);
}

/// The search has exactly one first fitting step.
proof fn lemma_first_fitting_unique(lower: int, upper: int, max_ticks: int, a: int, b: int)
    requires
        first_fitting_step(lower, upper, max_ticks, a),
        first_fitting_step(lower, upper, max_ticks, b),
    ensures
        a == b,
{
    let s0a = choose|s0: int|
        {
            &&& #[trigger] smallest_nice_at_least(min_step_units(lower, upper, max_ticks), s0)
            &&& is_nice_step(a)
            &&& a >= s0
            &&& tick_count(lower, upper, a) <= max_ticks
            &&& forall|t: int|
                is_nice_step(t) && s0 <= t < a ==> tick_count(lower, upper, t) > max_ticks
        };
    let s0b = choose|s0: int|
        {
            &&& #[trigger] smallest_nice_at_least(min_step_units(lower, upper, max_ticks), s0)
            &&& is_nice_step(b)
            &&& b >= s0
            &&& tick_count(lower, upper, b) <= max_ticks
            &&& forall|t: int|
                is_nice_step(t) && s0 <= t < b ==> tick_count(lower, upper, t) > max_ticks
        };
    assert(s0a == s0b);
    if a < b {
        assert(tick_count(lower, upper, a) > max_ticks);
        assert(false);
    }
    if b < a {
        assert(tick_count(lower, upper, b) > max_ticks);
        assert(false);
    }
}

/// Two planning steps for the same range and budget place the same
/// ticks: the step is unique whenever two or more ticks fit, and in
/// the degenerate one- or zero-tick cases every admissible step puts
/// the same (single or empty) tick list down.
pub proof fn lemma_planning_steps_agree(
    lower: int,
    upper: int,
    max_ticks: int,
    sa: int,
    sb: int,
)
    requires
        is_planning_step(lower, upper, max_ticks, sa),
        is_planning_step(lower, upper, max_ticks, sb),
    ensures
        tick_count(lower, upper, sa) == tick_count(lower, upper, sb),
        forall|i: int|
            0 <= i < tick_count(lower, upper, sa) ==> #[trigger] ((tick_lo(lower, sa) + i) * sa)
                == (tick_lo(lower, sb) + i) * sb,
{
    let s1a = choose|s1: int|
        {
            &&& #[trigger] first_fitting_step(lower, upper, max_ticks, s1)
            &&& s1 <= sa
            &&& step_run_equal(lower, upper, s1, sa)
        };
    let s1b = choose|s1: int|
        {
            &&& #[trigger] first_fitting_step(lower, upper, max_ticks, s1)
            &&& s1 <= sb
            &&& step_run_equal(lower, upper, s1, sb)
        };
    lemma_first_fitting_unique(lower, upper, max_ticks, s1a, s1b);
    let s1 = s1a;
    assert(tick_count(lower, upper, sa) == tick_count(lower, upper, s1));
    assert(tick_count(lower, upper, sb) == tick_count(lower, upper, s1));
    let c = tick_count(lower, upper, sa);
    lemma_nice_step_pos(sa);
    lemma_nice_step_pos(sb);
    if c >= 1 && sa != sb {
        if sa < sb {
            lemma_planning_steps_not_apart(lower, upper, max_ticks, s1, sa, sb);
        } else {
            lemma_planning_steps_not_apart(lower, upper, max_ticks, s1, sb, sa);
        }
        // the steps differ only in the zero-spanning single-tick case,
        // where the one tick is zero under either step
        assert(lower <= 0 <= upper && c == 1);
        lemma_span_single_tick(lower, upper, sa);
        lemma_span_single_tick(lower, upper, sb);
        assert forall|i: int| 0 <= i < c implies #[trigger] ((tick_lo(lower, sa) + i) * sa)
            == (tick_lo(lower, sb) + i) * sb by {
            assert(i == 0);
            assert(0 * sa == 0) by (nonlinear_arith);
            assert(0 * sb == 0) by (nonlinear_arith);
        }
    }
}

/// Two distinct planning steps with a tick each are impossible off
/// the zero-spanning single-tick case: the lower one's successor sits
/// inside the other's equal-count run yet must break it.
proof fn lemma_planning_steps_not_apart(
    lower: int,
    upper: int,
    max_ticks: int,
    s1: int,
    sa: int,
    sb: int,
)
    requires
        is_planning_step(lower, upper, max_ticks, sa),
        is_planning_step(lower, upper, max_ticks, sb),
        first_fitting_step(lower, upper, max_ticks, s1),
        s1 <= sa,
        s1 <= sb,
        step_run_equal(lower, upper, s1, sb),
        tick_count(lower, upper, sa) >= 1,
        sa < sb,
    ensures
        lower <= 0 <= upper && tick_count(lower, upper, sa) == 1,
{
    lemma_nice_step_pos(sa);
    lemma_nice_step_pos(sb);
    let c = tick_count(lower, upper, sa);
    let nxt = choose|nxt: int|
        {
            &&& #[trigger] is_nice_step(nxt)
            &&& nxt > sa
            &&& forall|t: int| is_nice_step(t) && t > sa ==> t >= nxt
            &&& (nxt > 4 * max_mag(lower, upper) || tick_count(lower, upper, nxt) != tick_count(
                lower,
                upper,
                sa,
            ))
        };
    assert(nxt <= sb);
    if !(lower <= 0 <= upper && c == 1) {
        // off that case the step is small, so the successor stays in
        // the search window and must keep the run's count
        if c >= 2 {
            lemma_count_two_span(lower, upper, sb);
            assert(sb <= upper - lower);
            assert(upper - lower <= 2 * max_mag(lower, upper));
        } else {
            assert(!(lower <= 0 <= upper));
            lemma_count_one_bound(lower, upper, sb);
        }
        assert(nxt <= 4 * max_mag(lower, upper));
        assert(tick_count(lower, upper, nxt) != tick_count(lower, upper, sa));
        assert(s1 <= nxt <= sb);
        assert(tick_count(lower, upper, nxt) == tick_count(lower, upper, s1));
        assert(false);
    }
}

/// The planner's tick list is unique: any two sequences that satisfy
/// [`planned_ticks`] for the same range and budget are equal.
pub proof fn lemma_planned_ticks_unique(
    lower: int,
    upper: int,
    max_ticks: int,
    t1: Seq<Fixed>,
    t2: Seq<Fixed>,
)
    requires
        planned_ticks(lower, upper, max_ticks, t1),
        planned_ticks(lower, upper, max_ticks, t2),
    ensures
        t1 == t2,
{
    let sa = choose|s: int|
        {
            &&& #[trigger] is_planning_step(lower, upper, max_ticks, s)
            &&& t1.len() == tick_count(lower, upper, s)
            &&& forall|i: int| 0 <= i < t1.len() ==> t1[i].units == (tick_lo(lower, s) + i) * s
        };
    let sb = choose|s: int|
        {
            &&& #[trigger] is_planning_step(lower, upper, max_ticks, s)
            &&& t2.len() == tick_count(lower, upper, s)
            &&& forall|i: int| 0 <= i < t2.len() ==> t2[i].units == (tick_lo(lower, s) + i) * s
        };
    lemma_planning_steps_agree(lower, upper, max_ticks, sa, sb);
    assert forall|i: int| 0 <= i < t1.len() implies t1[i] == t2[i] by {
        assert(t1[i].units == (tick_lo(lower, sa) + i) * sa);
        assert(t2[i].units == (tick_lo(lower, sb) + i) * sb);
    }
    assert(t1 =~= t2);
}

/// An ascending run of nice step candidates, handed out one at a time.
pub struct TickSteps {
    next: Fixed,
}

impl TickSteps {
    /// The candidate the next call of [`TickSteps::next`] hands out.
    pub closed spec fn spec_next(self) -> Fixed {
        self.next
    }

    /// The run can keep stepping without leaving the supported range.
    pub open spec fn wf(self) -> bool {
        &&& is_nice_step(self.spec_next().units as int)
        &&& 1 <= self.spec_next().units <= 8 * MAX_UNITS
    }

    /// The run of nice steps whose first candidate is the smallest
    /// nice step at or above `start`.
    pub fn start_at(start: Fixed) -> (r: TickSteps)
        requires
            1 <= start.units <= 2 * MAX_UNITS,
        ensures
            r.wf(),
            smallest_nice_at_least(start.units as int, r.spec_next().units as int),
    {
        let first = nice_start_at_units(start.units);
        TickSteps { next: Fixed { units: first } }
    }

    /// Hands out the current candidate and moves to the next one up.
    pub fn next(&mut self) -> (r: Fixed)
        requires
            old(self).wf(),
            old(self).spec_next().units <= 4 * MAX_UNITS,
        ensures
            r == old(self).spec_next(),
            final(self).wf(),
            final(self).spec_next().units > r.units,
            smallest_nice_at_least(r.units + 1, final(self).spec_next().units as int),
    {
        let curr = self.next;
        let upcoming = nice_succ(curr.units);
        self.next = Fixed { units: upcoming };
        curr
    }
}

/// A range of data values.
#[derive(Clone, Copy, Debug, PartialEq, Eq, Structural)]
pub struct Range {
    pub lower: Fixed,
    pub upper: Fixed,
}

impl Range {
    pub fn new(lower: Fixed, upper: Fixed) -> (r: Range)
        ensures
            r.lower == lower,
            r.upper == upper,
    {
        Range { lower, upper }
    }

    /// A range is valid when it is ascending and within the supported
    /// magnitude; only a valid range can carry an axis.
    pub fn is_valid(&self) -> (r: bool)
        ensures
            r == self.spec_valid(),
    {
        self.lower.units < self.upper.units && -MAX_UNITS <= self.lower.units && self.upper.units
            <= MAX_UNITS
    }

    pub open spec fn spec_valid(self) -> bool {
        &&& self.lower.units < self.upper.units
        &&& self.lower.in_range()
        &&& self.upper.in_range()
    }
}

/// An axis over a continuous range of values, with its planned ticks.
pub struct ContinuousAxis {
    range: Range,
    ticks: Vec<Fixed>,
    label: String,
}

impl ContinuousAxis {
    pub closed spec fn spec_min(self) -> Fixed {
        self.range.lower
    }

    pub closed spec fn spec_max(self) -> Fixed {
        self.range.upper
    }

    pub closed spec fn spec_ticks(self) -> Seq<Fixed> {
        self.ticks@
    }

    pub closed spec fn spec_label(self) -> Seq<char> {
        self.label@
    }

    /// The invariant every axis carries: a valid range, and ticks that
    /// ascend strictly through it.
    pub open spec fn wf(self) -> bool {
        &&& self.spec_min().in_range()
        &&& self.spec_max().in_range()
        &&& self.spec_min().units < self.spec_max().units
        &&& forall|i: int|
            0 <= i < self.spec_ticks().len() ==> self.spec_min().units
                <= (#[trigger] self.spec_ticks()[i]).units <= self.spec_max().units
        &&& forall|i: int, j: int|
            0 <= i < j < self.spec_ticks().len() ==> self.spec_ticks()[i].units
                < self.spec_ticks()[j].units
    }

    /// Constructs a new axis over `[lower, upper]`; this is the one
    /// place ticks are computed. The `planned_ticks` clause pins them
    /// completely: any two sequences satisfying it are equal
    /// ([`lemma_planned_ticks_unique`]), so the axis carries exactly
    /// what [`calculate_ticks`] returns.
    pub fn new(lower: Fixed, upper: Fixed, max_ticks: usize) -> (r: ContinuousAxis)
        requires
            lower.in_range(),
            upper.in_range(),
            lower.units < upper.units,
            1 <= max_ticks <= 10_000,
        ensures
            r.wf(),
            r.spec_min() == lower,
            r.spec_max() == upper,
            planned_ticks(lower.units as int, upper.units as int, max_ticks as int, r.spec_ticks()),
            r.spec_ticks().len() <= max_ticks,
            r.spec_label().len() == 0,
    {
        ContinuousAxis {
            range: Range::new(lower, upper),
            ticks: calculate_ticks(lower, upper, max_ticks),
            label: String::new(),
        }
    }

    pub fn max(&self) -> (r: Fixed)
        ensures
            r == self.spec_max(),
    {
        self.range.upper
    }

    pub fn min(&self) -> (r: Fixed)
        ensures
            r == self.spec_min(),
    {
        self.range.lower
    }

    /// Replaces the axis label.
    pub fn label(self, l: String) -> (r: ContinuousAxis)
        ensures
            r.spec_min() == self.spec_min(),
            r.spec_max() == self.spec_max(),
            r.spec_ticks() == self.spec_ticks(),
            r.spec_label() == l@,
            self.wf() ==> r.wf(),
    {
        ContinuousAxis { label: l, ..self }
    }

    pub fn get_label(&self) -> (r: &str)
        ensures
            r@ == self.spec_label(),
    {
        self.label.as_str()
    }

    /// The positions of the ticks on the axis.
    pub fn ticks(&self) -> (r: &Vec<Fixed>)
        ensures
            r@ == self.spec_ticks(),
    {
        &self.ticks
    }
}

/// An axis over a fixed set of named categories.
pub struct CategoricalAxis {
    ticks: Vec<String>,
    label: String,
}

impl CategoricalAxis {
    pub closed spec fn spec_ticks(self) -> Seq<String> {
        self.ticks@
    }

    pub closed spec fn spec_label(self) -> Seq<char> {
        self.label@
    }

    /// Constructs a new axis over the given categories.
    pub fn new(ticks: &[String]) -> (r: CategoricalAxis)
        ensures
            r.spec_ticks().len() == ticks@.len(),
            forall|i: int|
                0 <= i < ticks@.len() ==> (#[trigger] r.spec_ticks()[i])@ == ticks@[i]@,
            r.spec_label().len() == 0,
    {
        let mut owned: Vec<String> = Vec::new();
        let mut i: usize = 0;
        while i < ticks.len()
            invariant
                i <= ticks@.len(),
                owned@.len() == i,
                forall|j: int| 0 <= j < i ==> (#[trigger] owned@[j])@ == ticks@[j]@,
            decreases ticks@.len() - i,
        {
            let t = &ticks[i];
            owned.push(t.clone());
            i = i + 1;
        }
        CategoricalAxis { ticks: owned, label: String::new() }
    }

    /// Replaces the axis label.
    pub fn label(self, l: String) -> (r: CategoricalAxis)
        ensures
            r.spec_ticks() == self.spec_ticks(),
            r.spec_label() == l@,
    {
        CategoricalAxis { label: l, ..self }
    }

    pub fn get_label(&self) -> (r: &str)
        ensures
            r@ == self.spec_label(),
    {
        self.label.as_str()
    }

    /// The categories along the axis.
    pub fn ticks(&self) -> (r: &Vec<String>)
        ensures
            r@ == self.spec_ticks(),
    {
        &self.ticks
    }
}

} // verus!
