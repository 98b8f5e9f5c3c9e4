//! Fixed-point arithmetic for values, rewards and rates.
//!
//! A quantity is an `i64` that counts billionths: [`ONE`] stands for 1.0.
//! Every operation is total. A result that leaves the range of `i64` is
//! pinned to the nearest end of it, and a quotient or product that falls
//! between two representable numbers is rounded down.
//!
//! Probabilities are kept apart: a probability is a `u64` that counts units
//! of 10^-16, and [`CERTAIN`] stands for probability one.

use vstd::arithmetic::div_mod::{
    lemma_div_is_ordered, lemma_fundamental_div_mod, lemma_fundamental_div_mod_converse,
    lemma_hoist_over_denominator,
};
use vstd::prelude::*;

verus! {

/// The fixed-point representation of 1.0.
pub const ONE: i64 = 1_000_000_000;

/// The representation of probability one.
pub const CERTAIN: u64 = 10_000_000_000_000_000;

/// How much probability mass a list of outcomes may leave out. A transition
/// model that cuts the thin tails of its distributions stays within this; a
/// model that loses more is malformed.
pub const MASS_TOLERANCE: u64 = 400_000_000_000_000;

/// The number of type `i64` nearest to `x`.
pub open spec fn saturate(x: int) -> i64 {
    if x < i64::MIN {
        i64::MIN
    } else if x > i64::MAX {
        i64::MAX
    } else {
        x as i64
    }
}

/// `a + b`, saturating.
pub open spec fn sum(a: i64, b: i64) -> i64 {
    saturate(a + b)
}

/// `a - b`, saturating.
pub open spec fn difference(a: i64, b: i64) -> i64 {
    saturate(a - b)
}

/// The fixed-point product of `a` and `b`, rounded down and saturating.
pub open spec fn product(a: i64, b: i64) -> i64 {
    saturate((a * b) / (ONE as int))
}

/// The fixed-point quotient of `a` by `b`, rounded down and saturating.
/// Division by zero gives the end of the range on the side of `a`, and zero
/// for `a == 0`.
pub open spec fn quotient(a: i64, b: i64) -> i64 {
    if b > 0 {
        saturate((a * ONE) / (b as int))
    } else if b < 0 {
        saturate((-(a * ONE)) / (-(b as int)))
    } else if a > 0 {
        i64::MAX
    } else if a < 0 {
        i64::MIN
    } else {
        0
    }
}

/// `old_value` moved toward `target` by the fraction `rate` of the way.
pub open spec fn nudged(old_value: i64, target: i64, rate: i64) -> i64 {
    sum(old_value, product(rate, difference(target, old_value)))
}

/// The absolute difference of `a` and `b`.
pub open spec fn distance(a: i64, b: i64) -> u64 {
    if a >= b {
        (a - b) as u64
    } else {
        (b - a) as u64
    }
}

/// `weight` scaled by the inverse of the probability `p`, rounded down and
/// saturating. A probability of zero gives the top of the range.
pub open spec fn scaled_up(weight: i64, p: nat) -> i64 {
    if p == 0 {
        i64::MAX
    } else {
        saturate((weight * CERTAIN) / (p as int))
    }
}

/// Brings a wide intermediate result back into the range of `i64`.
pub fn clamp(x: i128) -> (r: i64)
    ensures
        r == saturate(x as int),
{
    if x < i64::MIN as i128 {
        i64::MIN
    } else if x > i64::MAX as i128 {
        i64::MAX
    } else {
        x as i64
    }
}

/// Division that rounds toward negative infinity.
pub fn div_floor(n: i128, d: i128) -> (q: i128)
    requires
        d > 0,
        n > i128::MIN,
    ensures
        q == (n as int) / (d as int),
{
    if n >= 0 {
        n / d
    } else {
        let m: i128 = -n;
        let q: i128 = m / d;
        let r: i128 = m % d;
        proof {
            lemma_fundamental_div_mod(m as int, d as int);
            if r == 0 {
                assert(n == (-q) * d + 0) by (nonlinear_arith)
                    requires
                        n == -m,
                        m == d * q + r,
                        r == 0,
                ;
                lemma_fundamental_div_mod_converse(n as int, d as int, -q as int, 0);
            } else {
                assert(n == (-q - 1) * d + (d - r)) by (nonlinear_arith)
                    requires
                        n == -m,
                        m == d * q + r,
                ;
                lemma_fundamental_div_mod_converse(n as int, d as int, -q - 1, d - r);
            }
        }
        if r == 0 {
            -q
        } else {
            -q - 1
        }
    }
}

/// Saturating addition.
pub fn fx_add(a: i64, b: i64) -> (r: i64)
    ensures
        r == sum(a, b),
{
    clamp(a as i128 + b as i128)
}

/// Saturating subtraction.
pub fn fx_sub(a: i64, b: i64) -> (r: i64)
    ensures
        r == difference(a, b),
{
    clamp(a as i128 - b as i128)
}

/// Fixed-point multiplication.
pub fn fx_mul(a: i64, b: i64) -> (r: i64)
    ensures
        r == product(a, b),
{
    assert(-0x4000_0000_0000_0000_0000_0000_0000_0000 <= a * b
        <= 0x4000_0000_0000_0000_0000_0000_0000_0000) by (nonlinear_arith)
        requires
            -0x8000_0000_0000_0000 <= a <= 0x7fff_ffff_ffff_ffff,
            -0x8000_0000_0000_0000 <= b <= 0x7fff_ffff_ffff_ffff,
    ;
    let wide: i128 = a as i128 * b as i128;
    clamp(div_floor(wide, ONE as i128))
}

/// Fixed-point division.
pub fn fx_div(a: i64, b: i64) -> (r: i64)
    ensures
        r == quotient(a, b),
{
    assert(-0x4000_0000_0000_0000_0000_0000_0000_0000 <= a * ONE
        <= 0x4000_0000_0000_0000_0000_0000_0000_0000) by (nonlinear_arith)
        requires
            -0x8000_0000_0000_0000 <= a <= 0x7fff_ffff_ffff_ffff,
            0 <= ONE <= 0x7fff_ffff_ffff_ffff,
    ;
    let wide: i128 = a as i128 * ONE as i128;
    if b > 0 {
        clamp(div_floor(wide, b as i128))
    } else if b < 0 {
        clamp(div_floor(-wide, -(b as i128)))
    } else if a > 0 {
        i64::MAX
    } else if a < 0 {
        i64::MIN
    } else {
        0
    }
}

/// Moves `old_value` toward `target` by the fraction `rate` of the way.
pub fn fx_nudge(old_value: i64, target: i64, rate: i64) -> (r: i64)
    ensures
        r == nudged(old_value, target, rate),
{
    fx_add(old_value, fx_mul(rate, fx_sub(target, old_value)))
}

/// The absolute difference of two values.
pub fn fx_dist(a: i64, b: i64) -> (r: u64)
    ensures
        r == distance(a, b),
{
    if a >= b {
        (a as i128 - b as i128) as u64
    } else {
        (b as i128 - a as i128) as u64
    }
}

/// Divides a weight by a probability.
pub fn scale_up(weight: i64, p: u128) -> (r: i64)
    ensures
        r == scaled_up(weight, p as nat),
{
    if p == 0 {
        i64::MAX
    } else if p > i128::MAX as u128 {
        proof {
            let n = weight * CERTAIN;
            let d = p as int;
            if n >= 0 {
                lemma_fundamental_div_mod_converse(n, d, 0, n);
            } else {
                lemma_fundamental_div_mod_converse(n, d, -1, d + n);
            }
        }
        if weight >= 0 {
            0
        } else {
            -1
        }
    } else {
        assert(-0x4000_0000_0000_0000_0000_0000_0000_0000 <= weight * CERTAIN
            <= 0x4000_0000_0000_0000_0000_0000_0000_0000) by (nonlinear_arith)
            requires
                -0x8000_0000_0000_0000 <= weight <= 0x7fff_ffff_ffff_ffff,
                0 <= CERTAIN <= 0x7fff_ffff_ffff_ffff,
        ;
        let wide: i128 = weight as i128 * CERTAIN as i128;
        clamp(div_floor(wide, p as i128))
    }
}

/// Whether `x` and `y` differ by no more than `d`.
pub open spec fn within(x: int, y: int, d: int) -> bool {
    x - d <= y <= x + d
}

/// Rounding to the range of `i64` brings no two numbers further apart.
pub proof fn lemma_saturate_keeps_within(x: int, y: int, d: int)
    requires
        within(x, y, d),
    ensures
        within(saturate(x) as int, saturate(y) as int, d),
{
}

/// Division that rounds down takes numbers within `c * d` of each other to
/// numbers within `d` of each other.
pub proof fn lemma_division_keeps_within(a: int, b: int, c: int, d: int)
    requires
        c > 0,
        d >= 0,
        within(a, b, c * d),
    ensures
        within(a / c, b / c, d),
{
    assert(d * c == c * d) by (nonlinear_arith);
    lemma_hoist_over_denominator(a, d, c as nat);
    lemma_div_is_ordered(b, a + c * d, c);
    lemma_hoist_over_denominator(b, d, c as nat);
    lemma_div_is_ordered(a, b + c * d, c);
}

/// Adding the same number brings no two numbers further apart.
pub proof fn lemma_sum_keeps_within(r: i64, x: i64, y: i64, d: int)
    requires
        within(x as int, y as int, d),
    ensures
        within(sum(r, x) as int, sum(r, y) as int, d),
{
}

/// Multiplying by a fraction brings no two numbers further apart.
pub proof fn lemma_product_keeps_within(g: i64, x: i64, y: i64, d: int)
    requires
        0 <= g <= ONE,
        d >= 0,
        within(x as int, y as int, d),
    ensures
        within(product(g, x) as int, product(g, y) as int, d),
{
    assert(within(g * x, g * y, ONE * d)) by (nonlinear_arith)
        requires
            0 <= g <= ONE,
            d >= 0,
            within(x as int, y as int, d),
    ;
    lemma_division_keeps_within(g * x, g * y, ONE as int, d);
    lemma_saturate_keeps_within((g * x) / (ONE as int), (g * y) / (ONE as int), d);
}

/// A value that is moved toward a target by a fraction of the way ends
/// between where it was and the target: it never moves away and never
/// overshoots.
pub proof fn lemma_nudged_stays_between(old_value: i64, target: i64, rate: i64)
    requires
        0 <= rate <= ONE,
    ensures
        old_value <= target ==> old_value <= nudged(old_value, target, rate) <= target,
        target <= old_value ==> target <= nudged(old_value, target, rate) <= old_value,
{
    let d = difference(target, old_value) as int;
    assert((ONE * d) / (ONE as int) == d) by {
        lemma_fundamental_div_mod_converse(ONE * d, ONE as int, d, 0);
    }
    if old_value <= target {
        assert(0 <= rate * d <= ONE * d) by (nonlinear_arith)
            requires
                0 <= rate <= ONE,
                0 <= d,
        ;
        lemma_div_is_ordered(0, rate * d, ONE as int);
        lemma_div_is_ordered(rate * d, ONE * d, ONE as int);
    } else {
        assert(ONE * d <= rate * d <= 0) by (nonlinear_arith)
            requires
                0 <= rate <= ONE,
                d <= 0,
        ;
        lemma_div_is_ordered(rate * d, 0, ONE as int);
        lemma_div_is_ordered(ONE * d, rate * d, ONE as int);
    }
}

/// The share that a positive weight has in a sum that holds it is a
/// fraction.
pub proof fn lemma_share_is_a_fraction(weight: i64, rest: i64)
    requires
        weight > 0,
        rest >= 0,
    ensures
        0 <= quotient(weight, sum(rest, weight)) <= ONE,
{
    let all = sum(rest, weight) as int;
    assert(0 <= weight * ONE <= all * ONE) by (nonlinear_arith)
        requires
            0 < weight <= all,
    ;
    lemma_div_is_ordered(0, weight * ONE, all);
    lemma_div_is_ordered(weight * ONE, all * ONE, all);
    assert((all * ONE) / all == ONE) by {
        assert(all * ONE == ONE * all) by (nonlinear_arith);
        lemma_fundamental_div_mod_converse(all * ONE, all, ONE as int, 0);
    }
}

} // verus!
