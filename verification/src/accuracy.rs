//! How near the mean of the estimator is to the arithmetic mean.
//!
//! Every step of the estimator rounds three times: the deviation of the
//! value from the mean, the share of the deviation, and the new mean. Each
//! rounding moves its result by no more than half a unit and one part in
//! two to the power of 53. The errors of the steps add up, and no faster:
//! after `n` values of no more than `bound` units each, `n` times the mean
//! differs from the sum of the values by no more than `n * (n + 6)` times
//! `bound / 2^53 + 1` units. For streams of up to some millions of values
//! that is within a billionth of the greatest value, and, where the
//! values do not cancel, within a billionth of the arithmetic mean.

use crate::arith::{difference, lemma_count_is_exact, negated, of_count, quotient, sum};
use crate::nearest::{distance, lemma_nearest_is_near};
use crate::number::{lemma_units_step, units_of, units_per_one, Number};
use crate::order::{lemma_quotient_rounds, lemma_sum_rounds, positive, rounds, size};
use crate::rounding::lemma_power_positive;
use crate::streaming_variance::{
    lemma_count_is_length, lemma_difference_sign, lemma_first_value, lemma_share_of_difference,
    lemma_step_stays_between, settled, widest_range, Estimate,
};
use vstd::prelude::*;

verus! {

/// Two to the power of 53: a rounding moves its result by no more than one
/// part in as many.
pub open spec fn grain() -> nat {
    0x20_0000_0000_0000
}

/// The exact sum of the values, in units.
pub open spec fn total_units(values: Seq<Number>) -> int
    decreases values.len(),
{
    if values.len() == 0 {
        0
    } else {
        total_units(values.drop_last()) + values.last().signed_units()
    }
}

/// How far the estimated mean is from the arithmetic mean, in units and
/// times the number of values: the mean times the number of values, less
/// the exact sum of the values.
pub open spec fn mean_error(values: Seq<Number>) -> int {
    values.len() * Estimate::of(values).mean.signed_units() - total_units(values)
}

/// A finite number that `t / den` units are rounded to is no further from
/// them than half a unit and one part in two to the power of 53 of them.
proof fn lemma_rounded_is_near(r: Number, t: int, den: nat)
    requires
        den > 0,
        r.finite(),
        rounds(r, t, den),
    ensures
        grain() * size(r.signed_units() * den - t) <= size(t) + (grain() / 2) * den,
{
    let x = r.magnitude();
    let u = units_of(x);
    assert(r.units() == u);
    lemma_units_step(0);
    crate::arith::lemma_nearest_of_nothing(den);
    lemma_nearest_is_near(size(t), den);
    let d = distance(size(t), den, x);
    assert(size(r.signed_units() * den - t) == d) by (nonlinear_arith)
        requires
            (t > 0 ==> r.signed_units() == u),
            (t < 0 ==> r.signed_units() == -u),
            (t == 0 ==> r.signed_units() == u || r.signed_units() == -u),
            (t == 0 ==> u == 0),
            d == if u * den >= size(t) {
                u * den - size(t)
            } else {
                size(t) - u * den
            },
            size(t) == if t < 0 {
                -t
            } else {
                t
            },
            size(r.signed_units() * den - t) == if r.signed_units() * den - t < 0 {
                -(r.signed_units() * den - t)
            } else {
                r.signed_units() * den - t
            },
    ;
}

/// One step of the estimator, from the second value on, takes the mean
/// times the count no further from the sum of the values than the three
/// roundings of the step allow.
proof fn lemma_step_error(m: Number, x: Number, count: u64, bound: nat)
    requires
        m.finite(),
        x.finite(),
        size(m.signed_units()) <= bound,
        size(x.signed_units()) <= bound,
        2 * bound <= widest_range(),
        2 <= count < grain(),
    ensures
        ({
            let moved = sum(m, quotient(difference(x, m), of_count(count)));
            let e = count * moved.signed_units() - ((count - 1) * m.signed_units()
                + x.signed_units());
            &&& moved.finite()
            &&& size(moved.signed_units()) <= bound
            &&& grain() * size(e) <= (count + 6) * bound + (2 * count + 1) * (grain() / 2)
        }),
{
    let a = m.signed_units();
    let b = x.signed_units();
    let s = b - a;
    let n = count as int;
    let half = (grain() / 2) as int;
    let k = grain() as int;
    let unit = units_per_one();
    lemma_power_positive(2, 1074);
    let d = difference(x, m);
    let big = d.signed_units();
    lemma_difference_sign(x, m);
    let back = negated(m);
    assert(back.units() == m.units());
    assert(back.signed_units() == -a);
    lemma_sum_rounds(x, back);
    lemma_rounded_is_near(d, s, 1);
    let e1 = big - s;
    assert(k * size(e1) <= size(s) + half);
    let parts = of_count(count);
    lemma_count_is_exact(count);
    assert(parts.units() == units_of(parts.magnitude()));
    lemma_units_step(0);
    assert(positive(parts)) by {
        assert(n * unit > 0) by (nonlinear_arith)
            requires
                n >= 2,
                unit > 0,
        ;
    }
    let q = quotient(d, parts);
    let share = q.signed_units();
    lemma_quotient_rounds(d, parts);
    lemma_share_of_difference(m, x, count);
    lemma_rounded_is_near(q, big * unit, parts.units());
    let e2 = n * share - big;
    assert(k * size(e2) <= size(big) + half * n) by (nonlinear_arith)
        requires
            k * size(share * (n * unit) - big * unit) <= size(big * unit) + half * (n * unit),
            e2 == n * share - big,
            unit > 0,
            k > 0,
            half > 0,
            n > 0,
            size(e2) == if e2 < 0 {
                -e2
            } else {
                e2
            },
            size(big) == if big < 0 {
                -big
            } else {
                big
            },
            size(big * unit) == if big * unit < 0 {
                -(big * unit)
            } else {
                big * unit
            },
            size(share * (n * unit) - big * unit) == if share * (n * unit) - big * unit < 0 {
                -(share * (n * unit) - big * unit)
            } else {
                share * (n * unit) - big * unit
            },
    ;
    let moved = sum(m, q);
    let p = moved.signed_units();
    lemma_sum_rounds(m, q);
    lemma_step_stays_between(m, x, count);
    lemma_rounded_is_near(moved, a + share, 1);
    let e3 = p - (a + share);
    assert(k * size(e3) <= size(a + share) + half);
    let e = n * p - ((n - 1) * a + b);
    assert(e == e1 + e2 + n * e3) by (nonlinear_arith)
        requires
            e == n * p - ((n - 1) * a + b),
            e1 == big - (b - a),
            e2 == n * share - big,
            e3 == p - (a + share),
    ;
    assert(size(s) <= 2 * bound);
    assert(size(big) <= 2 * size(s)) by (nonlinear_arith)
        requires
            k * size(e1) <= size(s) + half,
            e1 == big - s,
            k == 2 * half,
            half >= 1,
            s == 0 ==> big == 0,
            size(e1) == if e1 < 0 {
                -e1
            } else {
                e1
            },
            size(s) == if s < 0 {
                -s
            } else {
                s
            },
            size(big) == if big < 0 {
                -big
            } else {
                big
            },
    ;
    assert(size(a + share) <= bound);
    let x1 = size(e1) as int;
    let x2 = size(e2) as int;
    let x3 = size(e3) as int;
    let xe = size(e) as int;
    assert(size(n * e3) == n * x3) by (nonlinear_arith)
        requires
            n >= 2,
            x3 == if e3 < 0 {
                -e3
            } else {
                e3
            },
            size(n * e3) == if n * e3 < 0 {
                -(n * e3)
            } else {
                n * e3
            },
    ;
    assert(xe <= x1 + x2 + n * x3);
    assert(k * xe <= k * x1 + k * x2 + n * (k * x3)) by (nonlinear_arith)
        requires
            xe <= x1 + x2 + n * x3,
            k > 0,
    ;
    assert(n * (k * x3) <= n * (bound + half)) by (nonlinear_arith)
        requires
            k * x3 <= bound + half,
            n >= 2,
    ;
    assert(n * (bound + half) == n * bound + n * half) by (nonlinear_arith);
    assert((n + 6) * bound + (2 * n + 1) * half == n * bound + 6 * bound + 2 * (n * half) + half)
        by (nonlinear_arith);
    assert(half * n == n * half) by (nonlinear_arith);
    assert(k * size(e) <= (n + 6) * bound + (2 * n + 1) * half);
}

/// The mean is near the arithmetic mean. Where each of `n` values, fewer
/// than two to the power of 53, is finite and holds no more than `bound`
/// units, twice as many being within the widest range, `n` times the mean
/// differs from the exact sum of the values by no more than `n * (n + 6)`
/// times `bound / 2^53 + 1` units.
pub proof fn lemma_mean_is_near_the_arithmetic_mean(values: Seq<Number>, bound: nat)
    requires
        1 <= values.len() < grain(),
        2 * bound <= widest_range(),
        forall|i: int|
            0 <= i < values.len() ==> values[i].finite() && size(values[i].signed_units())
                <= bound,
    ensures
        Estimate::of(values).mean.finite(),
        size(Estimate::of(values).mean.signed_units()) <= bound,
        grain() * size(mean_error(values)) <= values.len() * (values.len() + 6) * (bound
            + grain()),
    decreases values.len(),
{
    let front = values.drop_last();
    let v = values.last();
    let before = Estimate::of(front);
    let after = Estimate::of(values);
    let n = values.len() as int;
    let k = grain() as int;
    lemma_count_is_length(front);
    if values.len() == 1 {
        lemma_first_value(v);
        lemma_units_step(0);
        assert(before == Estimate::initial());
        assert(after.mean == settled(v));
        assert(after.mean.signed_units() == v.signed_units());
        assert(total_units(front) == 0);
        assert(total_units(values) == v.signed_units());
        let p = after.mean.signed_units();
        assert(n * p == p) by (nonlinear_arith)
            requires
                n == 1,
        ;
        assert(mean_error(values) == n * p - total_units(values));
        assert(mean_error(values) == 0);
        assert(0 <= n * (n + 6) * (bound + k)) by (nonlinear_arith)
            requires
                n >= 1,
                bound >= 0,
                k > 0,
        ;
    } else {
        lemma_mean_is_near_the_arithmetic_mean(front, bound);
        lemma_step_error(before.mean, v, values.len() as u64, bound);
        let a = before.mean.signed_units();
        let p = after.mean.signed_units();
        let b = v.signed_units();
        let e = n * p - ((n - 1) * a + b);
        let earlier = mean_error(front);
        let now = mean_error(values);
        assert(front.len() == n - 1);
        assert(earlier == (n - 1) * a - total_units(front));
        assert(now == n * p - (total_units(front) + b));
        assert(now == earlier + e);
        assert(k * size(now) <= n * (n + 6) * (bound + k)) by (nonlinear_arith)
            requires
                now == earlier + e,
                k * size(earlier) <= (n - 1) * ((n - 1) + 6) * (bound + k),
                k * size(e) <= (n + 6) * bound + (2 * n + 1) * (k / 2),
                k == 0x20_0000_0000_0000,
                n >= 2,
                bound >= 0,
                size(now) == if now < 0 {
                    -now
                } else {
                    now
                },
                size(earlier) == if earlier < 0 {
                    -earlier
                } else {
                    earlier
                },
                size(e) == if e < 0 {
                    -e
                } else {
                    e
                },
        ;
    }
}

/// The most values of which the mean is within a billionth: six fewer
/// than two to the power of 23.
pub open spec fn most_values() -> nat {
    8_388_602
}

/// The mean is within a billionth of the greatest value. Where each of
/// `n` values, no more than `most_values()`, is finite and holds no more
/// than `bound` units, twice as many being within the widest range, the
/// mean differs from the arithmetic mean by no more than a billionth of
/// `bound + 2^53` units: a billion times the difference, taken `n` times,
/// is no more than `n` times as many units.
pub proof fn lemma_mean_is_within_a_billionth(values: Seq<Number>, bound: nat)
    requires
        1 <= values.len() <= most_values(),
        2 * bound <= widest_range(),
        forall|i: int|
            0 <= i < values.len() ==> values[i].finite() && size(values[i].signed_units())
                <= bound,
    ensures
        1_000_000_000 * size(mean_error(values)) <= values.len() * (bound + grain()),
{
    lemma_mean_is_near_the_arithmetic_mean(values, bound);
    let n = values.len() as int;
    let k = grain() as int;
    let e = size(mean_error(values)) as int;
    let w = (bound + grain()) as int;
    assert(n * (n + 6) * w <= 0x80_0000 * (n * w)) by (nonlinear_arith)
        requires
            1 <= n,
            n + 6 <= 0x80_0000,
            w >= 0,
    ;
    assert(1_000_000_000 * e <= n * w) by (nonlinear_arith)
        requires
            k * e <= 0x80_0000 * (n * w),
            k == 0x20_0000_0000_0000,
            e >= 0,
            n * w >= 0,
    ;
}

/// The mean matches the arithmetic mean to within a billionth of it, as
/// long as the values do not cancel. Where each of `n` values is finite
/// and holds no more than `bound` units, twice as many being within the
/// widest range, where `bound` is no more than `disparity` times the size
/// of the arithmetic mean, and `n + 6` times `disparity` is no more than
/// two to the power of 23, the mean differs from the arithmetic mean by
/// no more than a billionth of it and `n + 6` units: a billion times the
/// difference, taken `n` times, is no more than the size of the sum of
/// the values and a billion times `n * (n + 6)` units.
pub proof fn lemma_mean_matches_the_arithmetic_mean(
    values: Seq<Number>,
    bound: nat,
    disparity: nat,
)
    requires
        1 <= values.len(),
        (values.len() + 6) * disparity <= 0x80_0000,
        values.len() + 6 <= 0x80_0000,
        2 * bound <= widest_range(),
        forall|i: int|
            0 <= i < values.len() ==> values[i].finite() && size(values[i].signed_units())
                <= bound,
        values.len() * bound <= disparity * size(total_units(values)),
    ensures
        1_000_000_000 * size(mean_error(values)) <= size(total_units(values)) + 1_000_000_000
            * (values.len() * (values.len() + 6)),
{
    lemma_mean_is_near_the_arithmetic_mean(values, bound);
    let n = values.len() as int;
    let k = grain() as int;
    let e = size(mean_error(values)) as int;
    let t = size(total_units(values)) as int;
    let c = disparity as int;
    let b = bound as int;
    let m = n + 6;
    assert(n * m * (b + k) == m * (n * b) + (n * m) * k) by (nonlinear_arith);
    assert(m * (n * b) <= m * (c * t)) by (nonlinear_arith)
        requires
            n * b <= c * t,
            m >= 0,
    ;
    assert(m * (c * t) == (m * c) * t) by (nonlinear_arith);
    assert((m * c) * t <= 0x80_0000 * t) by (nonlinear_arith)
        requires
            m * c <= 0x80_0000,
            t >= 0,
    ;
    assert(k * e <= 0x80_0000 * t + (n * m) * k);
    assert(1_000_000_000 * e <= t + 1_000_000_000 * (n * m)) by (nonlinear_arith)
        requires
            k * e <= 0x80_0000 * t + (n * m) * k,
            k == 0x20_0000_0000_0000,
            e >= 0,
            t >= 0,
            n * m >= 0,
    ;
}

} // verus!
