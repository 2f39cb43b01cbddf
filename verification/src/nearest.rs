//! Rounding to the nearest number.
//!
//! A quantity that is not negative is given as a quotient of whole numbers,
//! counted in the smallest positive number. The magnitude nearest to it is
//! found between the two magnitudes that enclose it: the nearer one, and of
//! two that are equally near the even one. The magnitude of infinity stands
//! for two to the power of 1024, so what is nearer to it than to the
//! greatest finite number rounds to infinity.

use crate::number::{
    lemma_units_grow, lemma_units_step, units_of, Number, HIDDEN_BIT, INFINITY_MAGNITUDE, SIGN_BIT,
};
use crate::rounding::{lemma_power_positive, power, round_half_even};
use vstd::prelude::*;

verus! {

/// Whether `x` is the greatest magnitude of no more than `num / den` units.
pub open spec fn is_floor(x: nat, num: nat, den: nat) -> bool {
    &&& x <= INFINITY_MAGNITUDE
    &&& units_of(x) * den <= num
    &&& x < INFINITY_MAGNITUDE ==> num < units_of(x + 1) * den
}

/// The greatest magnitude of no more than `num / den` units.
pub open spec fn floor_magnitude(num: nat, den: nat) -> nat {
    choose|x: nat| is_floor(x, num, den)
}

/// The magnitude nearest to `num / den` units, the even one of two that are
/// equally near.
pub open spec fn nearest_magnitude(num: nat, den: nat) -> nat
    recommends
        den > 0,
{
    let x = floor_magnitude(num, den);
    if x >= INFINITY_MAGNITUDE {
        INFINITY_MAGNITUDE as nat
    } else if 2 * num > (units_of(x) + units_of(x + 1)) * den || (2 * num == (units_of(x)
        + units_of(x + 1)) * den && x % 2 == 1) {
        x + 1
    } else {
        x
    }
}

/// The number of a sign and a magnitude.
pub open spec fn signed(negative: bool, magnitude: nat) -> Number {
    Number {
        bits: if negative {
            (magnitude + SIGN_BIT) as u64
        } else {
            magnitude as u64
        },
    }
}

/// The number nearest to `num / den` units, under a sign.
pub open spec fn nearest(negative: bool, num: nat, den: nat) -> Number {
    signed(negative, nearest_magnitude(num, den))
}

/// A magnitude and its units, under either sign.
pub proof fn lemma_signed(negative: bool, magnitude: nat)
    requires
        magnitude <= INFINITY_MAGNITUDE,
    ensures
        signed(negative, magnitude).magnitude() == magnitude,
        signed(negative, magnitude).units() == units_of(magnitude),
        magnitude > 0 ==> signed(negative, magnitude).negative() == negative,
        signed(negative, magnitude).signed_units() == if negative {
            -(units_of(magnitude) as int)
        } else {
            units_of(magnitude) as int
        },
{
    lemma_units_step(0);
}

/// The magnitude of the significand `m` at the exponent `f`.
pub open spec fn magnitude_at(m: nat, f: int) -> nat {
    ((f + 1074) * HIDDEN_BIT + m) as nat
}

/// A significand as the exponent `f` has it: with the hidden bit, or
/// without it at the least exponent.
pub open spec fn fits(m: nat, f: int) -> bool {
    &&& -1074 <= f <= 971
    &&& m < 2 * HIDDEN_BIT
    &&& m >= HIDDEN_BIT || f == -1074
}

/// The magnitude of a significand at an exponent holds the significand
/// times the power of two of the exponent. This also holds of twice the
/// hidden bit, which is the hidden bit at the next exponent.
pub proof fn lemma_units_at(m: nat, f: int)
    requires
        -1074 <= f <= 971,
        m <= 2 * HIDDEN_BIT,
        m >= HIDDEN_BIT || f == -1074,
    ensures
        units_of(magnitude_at(m, f)) == m * power(2, (f + 1074) as nat),
        magnitude_at(m, f) <= INFINITY_MAGNITUDE,
        magnitude_at(m, f) % 2 == m % 2,
{
    let h = HIDDEN_BIT as nat;
    let x = magnitude_at(m, f);
    assert(power(2, 0) == 1);
    if m < h {
        assert(x == m);
        assert(units_of(x) == m * power(2, 0));
    } else if m < 2 * h {
        assert(x / h == f + 1075 && x % h == m - h);
    } else {
        assert(x / h == f + 1076 && x % h == 0);
        let p = power(2, (f + 1074) as nat);
        assert(power(2, (f + 1075) as nat) == 2 * p);
        assert(h * (2 * p) == (2 * h) * p) by (nonlinear_arith);
    }
}

/// There is only one floor.
pub proof fn lemma_floor_is(x: nat, num: nat, den: nat)
    requires
        den > 0,
        is_floor(x, num, den),
    ensures
        floor_magnitude(num, den) == x,
{
    let y = floor_magnitude(num, den);
    assert(is_floor(y, num, den));
    if x < y {
        lemma_units_step(x);
        if x + 1 < y {
            lemma_units_grow(x + 1, y);
        }
        assert(units_of(x + 1) * den <= units_of(y) * den) by (nonlinear_arith)
            requires
                units_of(x + 1) <= units_of(y),
        ;
    }
    if y < x {
        lemma_units_step(y);
        if y + 1 < x {
            lemma_units_grow(y + 1, x);
        }
        assert(units_of(y + 1) * den <= units_of(x) * den) by (nonlinear_arith)
            requires
                units_of(y + 1) <= units_of(x),
        ;
    }
}

/// From a magnitude that is not above the quantity, a floor is reached.
proof fn lemma_floor_from(k: nat, num: nat, den: nat)
    requires
        k <= INFINITY_MAGNITUDE,
        units_of(k) * den <= num,
    ensures
        exists|x: nat| is_floor(x, num, den),
    decreases INFINITY_MAGNITUDE - k,
{
    if k == INFINITY_MAGNITUDE || num < units_of(k + 1) * den {
        assert(is_floor(k, num, den));
    } else {
        lemma_floor_from(k + 1, num, den);
    }
}

/// Every quantity has its floor.
pub proof fn lemma_floor_exists(num: nat, den: nat)
    requires
        den > 0,
    ensures
        is_floor(floor_magnitude(num, den), num, den),
{
    lemma_units_step(0);
    assert(units_of(0) * den == 0) by (nonlinear_arith)
        requires
            units_of(0) == 0,
    ;
    lemma_floor_from(0, num, den);
}

/// A factor that numerator and denominator share changes no nearest
/// magnitude.
pub proof fn lemma_nearest_scales(num: nat, den: nat, c: nat)
    requires
        den > 0,
        c > 0,
    ensures
        nearest_magnitude(num * c, den * c) == nearest_magnitude(num, den),
{
    lemma_floor_exists(num, den);
    let x = floor_magnitude(num, den);
    let u = units_of(x);
    let v = units_of(x + 1);
    assert(den * c > 0) by (nonlinear_arith)
        requires
            den > 0,
            c > 0,
    ;
    assert(u * (den * c) == (u * den) * c && v * (den * c) == (v * den) * c && (u + v) * (den
        * c) == ((u + v) * den) * c && 2 * (num * c) == (2 * num) * c) by (nonlinear_arith);
    assert((u * den <= num) == ((u * den) * c <= num * c) && (num < v * den) == (num * c < (v
        * den) * c) && (2 * num > (u + v) * den) == ((2 * num) * c > ((u + v) * den) * c) && (2
        * num == (u + v) * den) == ((2 * num) * c == ((u + v) * den) * c)) by (nonlinear_arith)
        requires
            c > 0,
    ;
    lemma_floor_is(x, num * c, den * c);
}

/// What a magnitude holds rounds to the magnitude.
pub proof fn lemma_nearest_of_exact(x: nat, c: nat)
    requires
        x < INFINITY_MAGNITUDE,
        c > 0,
    ensures
        nearest_magnitude(units_of(x) * c, c) == x,
{
    lemma_units_step(x);
    let u = units_of(x);
    let v = units_of(x + 1);
    assert(u * c < v * c && 2 * (u * c) < (u + v) * c) by (nonlinear_arith)
        requires
            u < v,
            c > 0,
    ;
    lemma_floor_is(x, u * c, c);
}

/// What lies between two magnitudes rounds to a magnitude between them.
pub proof fn lemma_nearest_between(num: nat, den: nat, low: nat, high: nat)
    requires
        den > 0,
        low <= high <= INFINITY_MAGNITUDE,
        units_of(low) * den <= num <= units_of(high) * den,
    ensures
        low <= nearest_magnitude(num, den) <= high,
{
    lemma_floor_exists(num, den);
    let x = floor_magnitude(num, den);
    if x < low {
        lemma_units_step(x);
        if x + 1 < low {
            lemma_units_grow(x + 1, low);
        }
        assert(units_of(x + 1) * den <= units_of(low) * den) by (nonlinear_arith)
            requires
                units_of(x + 1) <= units_of(low),
        ;
    }
    if x > high {
        lemma_units_grow(high, x);
        assert(units_of(high) * den < units_of(x) * den) by (nonlinear_arith)
            requires
                units_of(high) < units_of(x),
                den > 0,
        ;
    }
    if x == high && x < INFINITY_MAGNITUDE {
        lemma_units_step(x);
        let u = units_of(x);
        let v = units_of(x + 1);
        assert(2 * (u * den) < (u + v) * den) by (nonlinear_arith)
            requires
                u < v,
                den > 0,
        ;
    }
}

/// A greater quantity has no smaller floor.
proof fn lemma_floor_grows(num: nat, den: nat, more: nat, over: nat)
    requires
        den > 0,
        over > 0,
        num * over <= more * den,
    ensures
        floor_magnitude(num, den) <= floor_magnitude(more, over),
{
    lemma_floor_exists(num, den);
    lemma_floor_exists(more, over);
    let x = floor_magnitude(num, den);
    let y = floor_magnitude(more, over);
    if y < x {
        lemma_units_step(y);
        if y + 1 < x {
            lemma_units_grow(y + 1, x);
        }
        let u = units_of(x);
        let v = units_of(y + 1);
        assert(false) by (nonlinear_arith)
            requires
                v <= u,
                u * den <= num,
                more < v * over,
                num * over <= more * den,
                den > 0,
                over > 0,
        ;
    }
}

/// Rounding keeps the order: a greater quantity has no smaller nearest
/// magnitude.
pub proof fn lemma_nearest_grows(num: nat, den: nat, more: nat, over: nat)
    requires
        den > 0,
        over > 0,
        num * over <= more * den,
    ensures
        nearest_magnitude(num, den) <= nearest_magnitude(more, over),
{
    lemma_floor_exists(num, den);
    lemma_floor_exists(more, over);
    lemma_floor_grows(num, den, more, over);
    let x = floor_magnitude(num, den);
    let y = floor_magnitude(more, over);
    if x == y && x < INFINITY_MAGNITUDE {
        let mid = units_of(x) + units_of(x + 1);
        assert((2 * num > mid * den ==> 2 * more > mid * over) && (2 * num >= mid * den ==> 2
            * more >= mid * over)) by (nonlinear_arith)
            requires
                num * over <= more * den,
                den > 0,
                over > 0,
        ;
    }
}

/// The distance between a quantity and what a magnitude holds, times the
/// denominator of the quantity.
pub open spec fn distance(num: nat, den: nat, x: nat) -> nat {
    if units_of(x) * den >= num {
        (units_of(x) * den - num) as nat
    } else {
        (num - units_of(x) * den) as nat
    }
}

/// What is rounded to a finite magnitude moves by no more than half a
/// unit and one part in two to the power of 53 of itself.
pub proof fn lemma_nearest_is_near(num: nat, den: nat)
    requires
        den > 0,
        nearest_magnitude(num, den) < INFINITY_MAGNITUDE,
    ensures
        2 * HIDDEN_BIT * distance(num, den, nearest_magnitude(num, den)) <= num + HIDDEN_BIT
            * den,
{
    lemma_floor_exists(num, den);
    let f = floor_magnitude(num, den);
    let x = nearest_magnitude(num, den);
    let u = units_of(f);
    let v = units_of(f + 1);
    let h = HIDDEN_BIT as nat;
    lemma_units_step(f);
    crate::number::lemma_units_step_is_small(f);
    let gap = (v - u) as nat;
    assert(h * gap <= u + h);
    let d = distance(num, den, x);
    assert(2 * d <= gap * den) by (nonlinear_arith)
        requires
            u * den <= num < v * den,
            gap == v - u,
            x == f ==> 2 * num <= (u + v) * den && d == num - u * den,
            x == f + 1 ==> 2 * num >= (u + v) * den && d == v * den - num,
            x == f || x == f + 1,
    ;
    assert(2 * h * d <= num + h * den) by (nonlinear_arith)
        requires
            2 * d <= gap * den,
            h * gap <= u + h,
            u * den <= num,
            den > 0,
            h > 0,
    ;
}

/// No magnitude is nearer to a quantity than its nearest magnitude.
pub proof fn lemma_nearest_is_nearest(num: nat, den: nat, y: nat)
    requires
        den > 0,
        y <= INFINITY_MAGNITUDE,
    ensures
        distance(num, den, nearest_magnitude(num, den)) <= distance(num, den, y),
{
    lemma_floor_exists(num, den);
    let x = floor_magnitude(num, den);
    let u = units_of(x);
    if x < INFINITY_MAGNITUDE {
        let v = units_of(x + 1);
        lemma_units_step(x);
        assert((u + v) * den == u * den + v * den) by (nonlinear_arith);
        if y < x {
            lemma_units_grow(y, x);
            assert(units_of(y) * den <= u * den) by (nonlinear_arith)
                requires
                    units_of(y) <= u,
            ;
        }
        if y > x + 1 {
            lemma_units_grow(x + 1, y);
            assert(v * den <= units_of(y) * den) by (nonlinear_arith)
                requires
                    v <= units_of(y),
            ;
        }
    } else if y < x {
        lemma_units_grow(y, x);
        assert(units_of(y) * den <= u * den) by (nonlinear_arith)
            requires
                units_of(y) <= u,
        ;
    }
}

/// Rounding at the step of the result: where the quotient by the step of
/// an exponent is a significand of that exponent, the nearest magnitude is
/// that of the rounded quotient.
pub proof fn lemma_nearest_at_step(num: nat, den: nat, f: int)
    requires
        den > 0,
        fits(num / (den * power(2, (f + 1074) as nat)), f),
    ensures
        nearest_magnitude(num, den) == magnitude_at(
            round_half_even(num, den * power(2, (f + 1074) as nat)),
            f,
        ),
{
    let step = power(2, (f + 1074) as nat);
    lemma_power_positive(2, (f + 1074) as nat);
    let d = den * step;
    assert(d > 0) by (nonlinear_arith)
        requires
            den > 0,
            step > 0,
            d == den * step,
    ;
    let q = num / d;
    let r = num % d;
    assert(num == q * d + r && r < d) by (nonlinear_arith)
        requires
            d > 0,
            q == num / d,
            r == num % d,
    ;
    let x = magnitude_at(q, f);
    lemma_units_at(q, f);
    lemma_units_at(q + 1, f);
    assert(magnitude_at(q + 1, f) == x + 1);
    assert(units_of(x) * den == q * d) by (nonlinear_arith)
        requires
            units_of(x) == q * step,
            d == den * step,
    ;
    assert(units_of(x + 1) * den == (q + 1) * d) by (nonlinear_arith)
        requires
            units_of(x + 1) == (q + 1) * step,
            d == den * step,
    ;
    assert((q + 1) * d == q * d + d) by (nonlinear_arith);
    assert((units_of(x) + units_of(x + 1)) * den == units_of(x) * den + units_of(x + 1) * den)
        by (nonlinear_arith);
    lemma_floor_is(x, num, den);
}

/// What reaches two to the power of 1024 rounds to infinity.
pub proof fn lemma_nearest_beyond(num: nat, den: nat)
    requires
        den > 0,
        units_of(INFINITY_MAGNITUDE as nat) * den <= num,
    ensures
        nearest_magnitude(num, den) == INFINITY_MAGNITUDE,
{
    lemma_floor_is(INFINITY_MAGNITUDE as nat, num, den);
}

/// Whether `x` is the greatest magnitude whose units, squared, are no more
/// than `w`.
pub open spec fn is_root_floor(x: nat, w: nat) -> bool {
    &&& x < INFINITY_MAGNITUDE
    &&& units_of(x) * units_of(x) <= w
    &&& w < units_of(x + 1) * units_of(x + 1)
}

/// The greatest magnitude whose units, squared, are no more than `w`.
pub open spec fn root_floor(w: nat) -> nat {
    choose|x: nat| is_root_floor(x, w)
}

/// The magnitude nearest to the square root of `w`, counted in units.
pub open spec fn nearest_root(w: nat) -> nat {
    let x = root_floor(w);
    let s = units_of(x) + units_of(x + 1);
    if 4 * w > s * s || (4 * w == s * s && x % 2 == 1) {
        x + 1
    } else {
        x
    }
}

/// There is only one floor of a root.
pub proof fn lemma_root_floor_is(x: nat, w: nat)
    requires
        is_root_floor(x, w),
    ensures
        root_floor(w) == x,
{
    let y = root_floor(w);
    assert(is_root_floor(y, w));
    if x < y {
        lemma_units_step(x);
        if x + 1 < y {
            lemma_units_grow(x + 1, y);
        }
        let a = units_of(x + 1);
        let b = units_of(y);
        assert(a * a <= b * b) by (nonlinear_arith)
            requires
                a <= b,
        ;
    }
    if y < x {
        lemma_units_step(y);
        if y + 1 < x {
            lemma_units_grow(y + 1, x);
        }
        let a = units_of(y + 1);
        let b = units_of(x);
        assert(a * a <= b * b) by (nonlinear_arith)
            requires
                a <= b,
        ;
    }
}

/// Rounding a root at the step of the result: where `w` is `n` times the
/// square of the step and `s` is the whole part of the root of `n`, the
/// nearest magnitude is that of `s`, or of the next where `n` is beyond
/// the middle of the two squares.
pub proof fn lemma_nearest_root_at_step(w: nat, n: nat, s: nat, f: int)
    requires
        fits(s, f),
        s * s <= n < (s + 1) * (s + 1),
        w == n * (power(2, (f + 1074) as nat) * power(2, (f + 1074) as nat)),
    ensures
        nearest_root(w) == magnitude_at(
            if n - s * s > s {
                s + 1
            } else {
                s
            },
            f,
        ),
{
    let p = power(2, (f + 1074) as nat);
    lemma_power_positive(2, (f + 1074) as nat);
    let x = magnitude_at(s, f);
    lemma_units_at(s, f);
    lemma_units_at(s + 1, f);
    assert(magnitude_at(s + 1, f) == x + 1);
    let u = units_of(x);
    let v = units_of(x + 1);
    assert(u * u == (s * s) * (p * p) && v * v == ((s + 1) * (s + 1)) * (p * p) && (u + v) * (u
        + v) == ((2 * s + 1) * (2 * s + 1)) * (p * p)) by (nonlinear_arith)
        requires
            u == s * p,
            v == (s + 1) * p,
    ;
    let pp = p * p;
    assert(pp > 0) by (nonlinear_arith)
        requires
            p > 0,
            pp == p * p,
    ;
    assert(((s * s) * pp <= n * pp) && (n * pp < ((s + 1) * (s + 1)) * pp)) by (nonlinear_arith)
        requires
            s * s <= n < (s + 1) * (s + 1),
            pp > 0,
    ;
    lemma_root_floor_is(x, w);
    let mid = (2 * s + 1) * (2 * s + 1);
    assert(mid == 4 * (s * s) + 4 * s + 1) by (nonlinear_arith)
        requires
            mid == (2 * s + 1) * (2 * s + 1),
    ;
    assert((4 * (n * pp) > mid * pp) == (4 * n > mid) && (4 * (n * pp) == mid * pp) == (4 * n
        == mid)) by (nonlinear_arith)
        requires
            pp > 0,
    ;
}

} // verus!
