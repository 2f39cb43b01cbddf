//! Arithmetic on numbers: each result is the number nearest to the exact
//! result, the even one of two that are equally near.

use crate::nearest::{
    fits, lemma_floor_is, lemma_nearest_at_step, lemma_nearest_beyond,
    lemma_nearest_root_at_step, lemma_nearest_scales, magnitude_at, nearest, nearest_magnitude,
    nearest_root, signed,
};
use crate::number::{
    lemma_units_step, units_of, units_per_one, Number, HIDDEN_BIT, INFINITY_MAGNITUDE, SIGN_BIT,
};
use crate::rounding::{
    halved_to_even, lemma_power_adds, lemma_power_grows, lemma_power_positive,
    lemma_powers_of_two, lemma_quotient_between, lemma_rounding_cancels, lemma_scale_bounds,
    lemma_scaled_order, lemma_shift_bounds, power, round_half_even, rounded_half_even,
};
use vstd::prelude::*;

verus! {

/// The numerator of `n * 2^e`, counted in the smallest positive number.
pub open spec fn dyadic_num(n: nat, e: int) -> nat {
    if e + 1074 >= 0 {
        n * power(2, (e + 1074) as nat)
    } else {
        n
    }
}

/// The denominator of `n * 2^e`, counted in the smallest positive number.
pub open spec fn dyadic_den(e: int) -> nat {
    if e + 1074 >= 0 {
        1
    } else {
        power(2, (-(e + 1074)) as nat)
    }
}

/// Nothing rounds to zero.
pub proof fn lemma_nearest_of_nothing(den: nat)
    requires
        den > 0,
    ensures
        nearest_magnitude(0, den) == 0,
{
    lemma_units_step(0);
    assert(0 < units_of(1) * den) by (nonlinear_arith)
        requires
            units_of(1) > 0,
            den > 0,
    ;
    assert(units_of(0) * den == 0) by (nonlinear_arith)
        requires
            units_of(0) == 0,
    ;
    lemma_floor_is(0, 0, den);
    assert((units_of(0) + units_of(1)) * den > 0) by (nonlinear_arith)
        requires
            units_of(0) == 0,
            units_of(1) > 0,
            den > 0,
    ;
}

/// What is a significand of its exponent as it stands needs no rounding.
proof fn lemma_exact_fit(n: nat, e: int, f: int, m: nat)
    requires
        -1074 <= f <= e,
        m == n * power(2, (e - f) as nat),
        fits(m, f),
    ensures
        nearest_magnitude(dyadic_num(n, e), dyadic_den(e)) == magnitude_at(m, f),
{
    let step = power(2, (f + 1074) as nat);
    lemma_power_positive(2, (f + 1074) as nat);
    lemma_power_adds(2, (e - f) as nat, (f + 1074) as nat);
    let num = dyadic_num(n, e);
    assert(num == m * step) by (nonlinear_arith)
        requires
            num == n * power(2, (e + 1074) as nat),
            power(2, (e + 1074) as nat) == power(2, (e - f) as nat) * step,
            m == n * power(2, (e - f) as nat),
    ;
    assert(1 * step == step);
    vstd::arithmetic::div_mod::lemma_fundamental_div_mod_converse(
        num as int,
        step as int,
        m as int,
        0,
    );
    lemma_nearest_at_step(num, 1, f);
}

/// What is longer than a significand is rounded at the exponent that makes
/// it one.
proof fn lemma_rounded_fit(n: nat, e: int, f: int)
    requires
        e < f,
        -1074 <= f <= 971,
        fits(n / power(2, (f - e) as nat), f),
    ensures
        nearest_magnitude(dyadic_num(n, e), dyadic_den(e)) == magnitude_at(
            round_half_even(n, power(2, (f - e) as nat)),
            f,
        ),
{
    let step = power(2, (f + 1074) as nat);
    let cut = power(2, (f - e) as nat);
    lemma_power_positive(2, (f + 1074) as nat);
    lemma_power_positive(2, (f - e) as nat);
    if e + 1074 >= 0 {
        let c = power(2, (e + 1074) as nat);
        lemma_power_positive(2, (e + 1074) as nat);
        lemma_power_adds(2, (f - e) as nat, (e + 1074) as nat);
        assert(1 * step == cut * c);
        lemma_rounding_cancels(n, cut, c);
        lemma_nearest_at_step(n * c, 1, f);
    } else {
        let den = power(2, (-(e + 1074)) as nat);
        lemma_power_positive(2, (-(e + 1074)) as nat);
        lemma_power_adds(2, (-(e + 1074)) as nat, (f + 1074) as nat);
        assert(den * step == cut);
        lemma_nearest_at_step(n, den, f);
    }
}

/// What reaches two to the power of 1024 rounds to infinity.
proof fn lemma_beyond(n: nat, e: int, l: nat)
    requires
        l >= 1,
        power(2, (l - 1) as nat) <= n,
        e + 1074 >= 0,
        e + l - 1 >= 1024,
    ensures
        nearest_magnitude(dyadic_num(n, e), dyadic_den(e)) == INFINITY_MAGNITUDE,
{
    lemma_powers_of_two();
    lemma_scale_bounds(n, (l - 1) as nat, (e + 1074) as nat);
    lemma_power_grows(2098, (l - 1 + e + 1074) as nat);
    lemma_power_adds(2, 52, 2046);
    assert(units_of(INFINITY_MAGNITUDE as nat) == power(2, 52) * power(2, 2046)) by {
        assert(INFINITY_MAGNITUDE as nat / (HIDDEN_BIT as nat) == 2047);
        assert(INFINITY_MAGNITUDE as nat % (HIDDEN_BIT as nat) == 0);
    }
    assert(units_of(INFINITY_MAGNITUDE as nat) * 1 == units_of(INFINITY_MAGNITUDE as nat));
    lemma_nearest_beyond(dyadic_num(n, e), 1);
}

/// The length of `n` in bits.
fn bit_length(n: u128) -> (l: u32)
    ensures
        l <= 128,
        n == 0 <==> l == 0,
        l >= 1 ==> power(2, (l - 1) as nat) <= n,
        n < power(2, l as nat),
{
    let mut v: u128 = n;
    let mut l: u32 = 0;
    assert(power(2, 0) == 1);
    proof {
        lemma_powers_of_two();
        lemma_power_adds(2, 64, 64);
    }
    while v > 0
        invariant
            l <= 128,
            v == n as nat / power(2, l as nat),
            l >= 1 ==> power(2, (l - 1) as nat) <= n,
            n == 0 ==> l == 0,
            n > 0 ==> l >= 1 || v > 0,
            power(2, 128) == 0x1_0000_0000_0000_0000 * 0x1_0000_0000_0000_0000,
        decreases v,
    {
        proof {
            lemma_power_positive(2, l as nat);
            lemma_shift_bounds(n as nat, l as nat, l as nat);
            assert(power(2, 0) == 1);
            assert(power(2, l as nat) <= n);
            if l >= 128 {
                lemma_power_grows(128, l as nat);
            }
            vstd::arithmetic::div_mod::lemma_div_denominator(
                n as int,
                power(2, l as nat) as int,
                2,
            );
            assert(power(2, (l + 1) as nat) == 2 * power(2, l as nat));
            assert(power(2, l as nat) * 2 == power(2, (l + 1) as nat));
        }
        v = v / 2;
        l = l + 1;
    }
    proof {
        lemma_power_positive(2, l as nat);
        let p = power(2, l as nat);
        assert(n < p) by (nonlinear_arith)
            requires
                p > 0,
                n as nat / p == 0,
        ;
    }
    l
}

/// `n * 2^k`, where that fits.
fn scaled_up(n: u128, k: u32) -> (v: u128)
    requires
        n * power(2, k as nat) <= u128::MAX,
    ensures
        v == n * power(2, k as nat),
{
    let mut v: u128 = n;
    let mut i: u32 = 0;
    assert(n * power(2, 0) == n) by (nonlinear_arith)
        requires
            power(2, 0) == 1,
    ;
    while i < k
        invariant
            i <= k,
            v == n * power(2, i as nat),
            n * power(2, k as nat) <= u128::MAX,
        decreases k - i,
    {
        proof {
            let p = power(2, i as nat);
            assert(power(2, (i + 1) as nat) == 2 * p);
            assert(n * (2 * p) == 2 * (n * p)) by (nonlinear_arith);
            lemma_power_grows((i + 1) as nat, k as nat);
            assert(n * power(2, (i + 1) as nat) <= n * power(2, k as nat)) by (nonlinear_arith)
                requires
                    power(2, (i + 1) as nat) <= power(2, k as nat),
            ;
        }
        v = v * 2;
        i = i + 1;
    }
    v
}

/// The number nearest to `n * 2^e`, under a sign.
pub(crate) fn round_dyadic(negative: bool, n: u128, e: i32) -> (r: Number)
    requires
        -3000 <= e <= 3000,
    ensures
        r == nearest(negative, dyadic_num(n as nat, e as int), dyadic_den(e as int)),
{
    let sign: u64 = if negative {
        SIGN_BIT
    } else {
        0
    };
    proof {
        lemma_power_positive(2, (-(e + 1074)) as nat);
        lemma_powers_of_two();
    }
    if n == 0 {
        proof {
            assert(0 * power(2, (e + 1074) as nat) == 0) by (nonlinear_arith);
            lemma_nearest_of_nothing(dyadic_den(e as int));
        }
        return Number { bits: sign };
    }
    let l: u32 = bit_length(n);
    let top: i32 = e + l as i32 - 1;
    if top >= 1024 {
        proof {
            lemma_beyond(n as nat, e as int, l as nat);
        }
        return Number { bits: sign + INFINITY_MAGNITUDE };
    }
    let f: i32 = if top - 52 > -1074 {
        top - 52
    } else {
        -1074
    };
    let m: u128 = if f <= e {
        proof {
            lemma_scale_bounds(n as nat, l as nat, (e - f) as nat);
            lemma_scale_bounds(n as nat, (l - 1) as nat, (e - f) as nat);
            lemma_power_grows((l + e - f) as nat, 53);
            if f > -1074 {
                assert(l - 1 + e - f == 52);
            }
        }
        let m: u128 = scaled_up(n, (e - f) as u32);
        proof {
            lemma_exact_fit(n as nat, e as int, f as int, m as nat);
        }
        m
    } else {
        proof {
            if l as int >= f - e {
                lemma_shift_bounds(n as nat, l as nat, (f - e) as nat);
                lemma_power_grows((l - (f - e)) as nat, 53);
            } else {
                lemma_power_grows(l as nat, (f - e) as nat);
                vstd::arithmetic::div_mod::lemma_basic_div(
                    n as int,
                    power(2, (f - e) as nat) as int,
                );
            }
            if f > -1074 {
                lemma_shift_bounds(n as nat, (l - 1) as nat, (f - e) as nat);
                assert(l - 1 - (f - e) == 52);
            }
            lemma_rounded_fit(n as nat, e as int, f as int);
        }
        halved_to_even(n, (f - e) as u32)
    };
    proof {
        let q = if f <= e {
            m as nat
        } else {
            n as nat / power(2, (f - e) as nat)
        };
        assert(m <= q + 1);
        assert(magnitude_at(m as nat, f as int) <= INFINITY_MAGNITUDE) by {
            crate::nearest::lemma_units_at(m as nat, f as int);
        }
    }
    let magnitude: u64 = ((f + 1074) as u64) * HIDDEN_BIT + m as u64;
    Number { bits: sign + magnitude }
}

/// The pattern that stands for every result that is not a number.
pub const NAN_BITS: u64 = 0x7ff8_0000_0000_0000;

/// The result that is not a number.
pub open spec fn not_a_number() -> Number {
    Number { bits: NAN_BITS }
}

/// The pattern of one.
pub const ONE_BITS: u64 = 0x3ff0_0000_0000_0000;

/// The number one.
pub open spec fn one() -> Number {
    Number { bits: ONE_BITS }
}

/// The number zero.
pub open spec fn zero() -> Number {
    Number { bits: 0 }
}

/// The number nearest to a count.
pub open spec fn of_count(count: u64) -> Number {
    nearest(false, count as nat * units_per_one(), 1)
}

/// What is at least one and shorter than a significand becomes one by
/// doubling, `k` times.
proof fn lemma_shift_to_significand(n: nat, j: nat) -> (k: nat)
    requires
        j <= 52,
        power(2, j) <= n < 2 * HIDDEN_BIT,
    ensures
        k + j <= 52,
        HIDDEN_BIT <= n * power(2, k) < 2 * HIDDEN_BIT,
    decreases 2 * HIDDEN_BIT - n,
{
    lemma_powers_of_two();
    lemma_power_positive(2, j);
    if n >= HIDDEN_BIT {
        assert(power(2, 0) == 1);
        assert(n * 1 == n);
        if j > 52 {
            lemma_power_grows(53, j);
        }
        0
    } else {
        if j >= 52 {
            lemma_power_grows(52, j);
        }
        assert(power(2, j + 1) == 2 * power(2, j));
        let k = lemma_shift_to_significand(2 * n, j + 1);
        assert(power(2, k + 1) == 2 * power(2, k));
        assert(n * (2 * power(2, k)) == (2 * n) * power(2, k)) by (nonlinear_arith);
        k + 1
    }
}

/// A count below two to the power of 53 is a number as it stands: it
/// holds as many times the units of one.
pub proof fn lemma_count_is_exact(count: u64)
    requires
        1 <= count < 0x20_0000_0000_0000,
    ensures
        of_count(count).finite(),
        !of_count(count).negative(),
        of_count(count).units() == count * units_per_one(),
{
    lemma_powers_of_two();
    assert(power(2, 0) == 1);
    let n = count as nat;
    let k = lemma_shift_to_significand(n, 0);
    let m = n * power(2, k);
    let f = -(k as int);
    lemma_exact_fit(n, 0, f, m);
    crate::nearest::lemma_units_at(m, f);
    lemma_power_adds(2, k, (1074 - k) as nat);
    let x = magnitude_at(m, f);
    assert(units_of(x) == n * units_per_one()) by (nonlinear_arith)
        requires
            units_of(x) == m * power(2, (f + 1074) as nat),
            m == n * power(2, k),
            units_per_one() == power(2, k) * power(2, (1074 - k) as nat),
            f + 1074 == 1074 - k,
    ;
    assert(x < INFINITY_MAGNITUDE);
    assert(of_count(count) == signed(false, x));
    assert(of_count(count).magnitude() == x);
    assert(of_count(count).units() == units_of(x));
}

/// The product of two numbers: the number nearest to the exact product,
/// under the sign of the product. Infinity times zero is not a number.
pub open spec fn product(a: Number, b: Number) -> Number {
    let negative = a.negative() != b.negative();
    if a.nan() || b.nan() {
        not_a_number()
    } else if a.infinite() || b.infinite() {
        if a.magnitude() == 0 || b.magnitude() == 0 {
            not_a_number()
        } else {
            signed(negative, INFINITY_MAGNITUDE as nat)
        }
    } else {
        nearest(negative, a.units() * b.units(), units_per_one())
    }
}

/// A product of two significands at the sum of their exponents is the
/// product of the units over the units of one.
proof fn lemma_product_is_dyadic(ma: nat, ea: int, mb: nat, eb: int)
    requires
        -1074 <= ea,
        -1074 <= eb,
    ensures
        nearest_magnitude(dyadic_num(ma * mb, ea + eb), dyadic_den(ea + eb)) == nearest_magnitude(
            (ma * power(2, (ea + 1074) as nat)) * (mb * power(2, (eb + 1074) as nat)),
            units_per_one(),
        ),
{
    let pa = power(2, (ea + 1074) as nat);
    let pb = power(2, (eb + 1074) as nat);
    let one = units_per_one();
    let n = ma * mb;
    let g = ea + eb + 1074;
    lemma_power_positive(2, 1074);
    lemma_power_adds(2, (ea + 1074) as nat, (eb + 1074) as nat);
    assert((ma * pa) * (mb * pb) == n * (pa * pb)) by (nonlinear_arith)
        requires
            n == ma * mb,
    ;
    if g >= 0 {
        let c = power(2, g as nat);
        lemma_power_adds(2, g as nat, 1074);
        assert(n * (c * one) == (n * c) * one) by (nonlinear_arith);
        assert(1 * one == one);
        lemma_nearest_scales(n * c, 1, one);
    } else {
        let d = power(2, (-g) as nat);
        let c = power(2, (g + 1074) as nat);
        lemma_power_positive(2, (-g) as nat);
        lemma_power_positive(2, (g + 1074) as nat);
        lemma_power_adds(2, (-g) as nat, (g + 1074) as nat);
        lemma_nearest_scales(n, d, c);
    }
}

/// The sum of two quantities that are given by sign and units: the number
/// nearest to the exact sum. A sum of nothing is zero, and minus zero only
/// where both quantities are negative.
pub open spec fn sum_of_units(na: bool, ua: nat, nb: bool, ub: nat) -> Number {
    let s = (if na {
        -(ua as int)
    } else {
        ua as int
    }) + (if nb {
        -(ub as int)
    } else {
        ub as int
    });
    if s == 0 {
        signed(na && nb, 0)
    } else if s < 0 {
        nearest(true, (-s) as nat, 1)
    } else {
        nearest(false, s as nat, 1)
    }
}

/// The sum of two numbers: the number nearest to the exact sum. Infinity
/// minus infinity is not a number.
pub open spec fn sum(a: Number, b: Number) -> Number {
    if a.nan() || b.nan() {
        not_a_number()
    } else if a.infinite() {
        if b.infinite() && a.negative() != b.negative() {
            not_a_number()
        } else {
            a
        }
    } else if b.infinite() {
        b
    } else {
        sum_of_units(a.negative(), a.units(), b.negative(), b.units())
    }
}

/// The number with the other sign.
pub open spec fn negated(a: Number) -> Number {
    Number {
        bits: if a.bits >= SIGN_BIT {
            (a.bits - SIGN_BIT) as u64
        } else {
            (a.bits + SIGN_BIT) as u64
        },
    }
}

/// The difference of two numbers: the sum of the first and the negated
/// second.
pub open spec fn difference(a: Number, b: Number) -> Number {
    sum(a, negated(b))
}

/// A number absorbs what is less than a quarter of its step: the sum and
/// the difference round back to the number.
proof fn lemma_absorb(m: nat, e: int, small: nat, minus: bool)
    requires
        fits(m, e),
        m >= HIDDEN_BIT,
        e > -1074,
        4 * small < power(2, (e + 1074) as nat),
    ensures
        m * power(2, (e + 1074) as nat) >= small,
        nearest_magnitude(
            if minus {
                (m * power(2, (e + 1074) as nat) - small) as nat
            } else {
                m * power(2, (e + 1074) as nat) + small
            },
            1,
        ) == magnitude_at(m, e),
{
    let step = power(2, (e + 1074) as nat);
    let h = HIDDEN_BIT as nat;
    lemma_power_positive(2, (e + 1074) as nat);
    assert(m * step >= step) by (nonlinear_arith)
        requires
            m >= 1,
            step > 0,
    ;
    assert(1 * step == step);
    if !minus || small == 0 {
        let num = m * step + small;
        vstd::arithmetic::div_mod::lemma_fundamental_div_mod_converse(
            num as int,
            step as int,
            m as int,
            small as int,
        );
        lemma_nearest_at_step(num, 1, e);
    } else if m > h {
        let num = (m * step - small) as nat;
        assert(num == (m - 1) * step + (step - small)) by (nonlinear_arith)
            requires
                num == m * step - small,
        ;
        vstd::arithmetic::div_mod::lemma_fundamental_div_mod_converse(
            num as int,
            step as int,
            m - 1,
            step - small,
        );
        lemma_nearest_at_step(num, 1, e);
    } else {
        let half = power(2, (e + 1073) as nat);
        lemma_power_positive(2, (e + 1073) as nat);
        assert(step == 2 * half);
        assert(1 * half == half);
        let num = (m * step - small) as nat;
        assert(num == (2 * h - 1) * half + (half - small)) by (nonlinear_arith)
            requires
                num == m * step - small,
                m == h,
                step == 2 * half,
        ;
        vstd::arithmetic::div_mod::lemma_fundamental_div_mod_converse(
            num as int,
            half as int,
            2 * h - 1,
            half - small,
        );
        lemma_nearest_at_step(num, 1, e - 1);
        assert(magnitude_at(2 * h, e - 1) == magnitude_at(h, e));
    }
}

/// A number whose exponent is well above that of another absorbs the
/// other: their sum is the number itself.
proof fn lemma_far_sum(hi: Number, lo: Number)
    requires
        hi.finite(),
        lo.finite(),
        hi.exponent() - lo.exponent() > 64,
    ensures
        sum_of_units(hi.negative(), hi.units(), lo.negative(), lo.units()) == hi,
{
    let eh = hi.exponent();
    let el = lo.exponent();
    let mh = hi.significand();
    let ml = lo.significand();
    let step = power(2, (eh + 1074) as nat);
    let uh = hi.units();
    let ul = lo.units();
    lemma_powers_of_two();
    lemma_power_positive(2, (eh + 1074) as nat);
    lemma_scale_bounds(ml, 53, (el + 1074) as nat);
    lemma_power_grows((el + 1127) as nat, (eh + 1072) as nat);
    assert(step == 4 * power(2, (eh + 1072) as nat)) by {
        assert(power(2, (eh + 1074) as nat) == 2 * power(2, (eh + 1073) as nat));
        assert(power(2, (eh + 1073) as nat) == 2 * power(2, (eh + 1072) as nat));
    }
    assert(4 * ul < step);
    assert(mh >= HIDDEN_BIT);
    lemma_absorb(mh, eh, ul, hi.negative() != lo.negative());
    assert(uh >= step) by (nonlinear_arith)
        requires
            uh == mh * step,
            mh >= 1,
            step > 0,
    ;
    assert(hi.magnitude() == magnitude_at(mh, eh)) by {
        assert(hi.magnitude() / (HIDDEN_BIT as nat) == eh + 1075);
    }
    assert(hi == signed(hi.negative(), hi.magnitude()));
}

/// The sum of two finite numbers whose exponents are no more than 64
/// apart, the first of which has no smaller exponent.
fn add_near(nh: bool, mh: u64, eh: i32, nl: bool, ml: u64, el: i32) -> (r: Number)
    requires
        -1074 <= el <= eh <= 971,
        eh - el <= 64,
        mh < 2 * HIDDEN_BIT,
        ml < 2 * HIDDEN_BIT,
    ensures
        r == sum_of_units(
            nh,
            mh as nat * power(2, (eh + 1074) as nat),
            nl,
            ml as nat * power(2, (el + 1074) as nat),
        ),
{
    let ghost p = power(2, (el + 1074) as nat);
    let ghost step = power(2, (eh + 1074) as nat);
    let ghost uh = mh as nat * step;
    let ghost ul = ml as nat * p;
    proof {
        lemma_powers_of_two();
        lemma_power_positive(2, (el + 1074) as nat);
        lemma_power_adds(2, (eh - el) as nat, (el + 1074) as nat);
        lemma_scale_bounds(mh as nat, 53, (eh - el) as nat);
        lemma_power_grows((53 + eh - el) as nat, 117);
        lemma_power_adds(2, 53, 64);
        assert(power(2, 117) == 0x20_0000_0000_0000 * 0x1_0000_0000_0000_0000);
    }
    let a: u128 = scaled_up(mh as u128, (eh - el) as u32);
    let b: u128 = ml as u128;
    proof {
        assert(uh == a * p) by (nonlinear_arith)
            requires
                uh == mh * step,
                step == power(2, (eh - el) as nat) * p,
                a == mh * power(2, (eh - el) as nat),
        ;
        assert((a + b) * p == a * p + b * p && (a - b) * p == a * p - b * p && (b - a) * p == b
            * p - a * p) by (nonlinear_arith);
        assert((a == b) == (a * p == b * p) && (a > b) == (a * p > b * p)) by (nonlinear_arith)
            requires
                p > 0,
        ;
        lemma_nearest_of_nothing(1);
        assert(0 * p == 0) by (nonlinear_arith);
    }
    if nh == nl {
        round_dyadic(nh, a + b, el)
    } else if a > b {
        round_dyadic(nh, a - b, el)
    } else if a < b {
        round_dyadic(nl, b - a, el)
    } else {
        Number { bits: 0 }
    }
}

/// The sum of two finite numbers, the first of which has no smaller
/// exponent.
fn add_ordered(hi: Number, mh: u64, eh: i32, lo: Number, ml: u64, el: i32) -> (r: Number)
    requires
        hi.finite(),
        lo.finite(),
        mh == hi.significand(),
        eh == hi.exponent(),
        ml == lo.significand(),
        el == lo.exponent(),
        el <= eh,
    ensures
        r == sum_of_units(hi.negative(), hi.units(), lo.negative(), lo.units()),
{
    if eh - el > 64 {
        proof {
            lemma_far_sum(hi, lo);
        }
        hi
    } else {
        add_near(hi.is_negative(), mh, eh, lo.is_negative(), ml, el)
    }
}

/// The quotient of two numbers: the number nearest to the exact quotient,
/// under the sign of the quotient. What is not zero, over zero, is
/// infinite; zero over zero and infinity over infinity are not numbers.
pub open spec fn quotient(a: Number, b: Number) -> Number {
    let negative = a.negative() != b.negative();
    if a.nan() || b.nan() {
        not_a_number()
    } else if a.infinite() {
        if b.infinite() {
            not_a_number()
        } else {
            signed(negative, INFINITY_MAGNITUDE as nat)
        }
    } else if b.infinite() {
        signed(negative, 0)
    } else if b.magnitude() == 0 {
        if a.magnitude() == 0 {
            not_a_number()
        } else {
            signed(negative, INFINITY_MAGNITUDE as nat)
        }
    } else {
        nearest(negative, a.units() * units_per_one(), b.units())
    }
}

/// The quotient of two significands lies between two powers of two that
/// their lengths give: with the exponent `c` of the lower one, `ma * 2^(52
/// - c)` is `mb` times a significand with the hidden bit.
pub open spec fn ratio_at(ma: nat, mb: nat, c: int) -> bool {
    &&& c <= 52
    &&& power(2, 52) * mb <= ma * power(2, (52 - c) as nat)
    &&& ma * power(2, (52 - c) as nat) < power(2, 53) * mb
}

/// The exponent of the power of two below the quotient of two significands
/// of given lengths.
proof fn lemma_ratio(ma: nat, la: nat, mb: nat, lb: nat)
    requires
        1 <= la <= 53,
        1 <= lb <= 53,
        power(2, (la - 1) as nat) <= ma < power(2, la),
        power(2, (lb - 1) as nat) <= mb < power(2, lb),
    ensures
        ma * power(2, lb) >= mb * power(2, la) ==> ratio_at(ma, mb, la - lb),
        ma * power(2, lb) < mb * power(2, la) ==> ratio_at(ma, mb, la - lb - 1),
{
    let pa = power(2, la);
    let pb = power(2, lb);
    lemma_power_positive(2, la);
    lemma_power_positive(2, lb);
    if ma * pb >= mb * pa {
        let t = (52 - la + lb) as nat;
        let x = ma * power(2, t);
        lemma_power_adds(2, t, la);
        lemma_power_adds(2, 52, lb);
        assert(x * pa == (ma * pb) * power(2, 52)) by (nonlinear_arith)
            requires
                x == ma * power(2, t),
                power(2, t + la) == power(2, t) * pa,
                power(2, 52 + lb) == power(2, 52) * pb,
                t + la == 52 + lb,
        ;
        assert((power(2, 52) * mb) * pa == (mb * pa) * power(2, 52)) by (nonlinear_arith);
        lemma_power_positive(2, 52);
        assert((mb * pa) * power(2, 52) <= (ma * pb) * power(2, 52)) by (nonlinear_arith)
            requires
                mb * pa <= ma * pb,
        ;
        lemma_scaled_order(power(2, 52) * mb, x, la);
        lemma_scale_bounds(ma, la, t);
        lemma_power_adds(2, 53, (lb - 1) as nat);
        assert(power(2, 53) * power(2, (lb - 1) as nat) <= power(2, 53) * mb) by (nonlinear_arith)
            requires
                power(2, (lb - 1) as nat) <= mb,
        ;
    } else {
        let t = (53 - la + lb) as nat;
        let x = ma * power(2, t);
        lemma_power_adds(2, t, la);
        lemma_power_adds(2, 53, lb);
        assert(x * pa == (ma * pb) * power(2, 53)) by (nonlinear_arith)
            requires
                x == ma * power(2, t),
                power(2, t + la) == power(2, t) * pa,
                power(2, 53 + lb) == power(2, 53) * pb,
                t + la == 53 + lb,
        ;
        assert((power(2, 53) * mb) * pa == (mb * pa) * power(2, 53)) by (nonlinear_arith);
        lemma_power_positive(2, 53);
        assert((ma * pb) * power(2, 53) < (mb * pa) * power(2, 53)) by (nonlinear_arith)
            requires
                ma * pb < mb * pa,
                power(2, 53) > 0,
        ;
        lemma_scaled_order(x, power(2, 53) * mb, la);
        lemma_scale_bounds(ma, (la - 1) as nat, t);
        lemma_power_adds(2, 52, lb);
        assert(power(2, 52) * mb <= power(2, 52) * pb) by (nonlinear_arith)
            requires
                mb < pb,
        ;
    }
}

/// The units of a quotient, divided by the step of an exponent: the
/// significands, with the powers of two that are left when the exponents
/// and the step are taken out.
proof fn lemma_quotient_at_step(ma: nat, ea: int, mb: nat, eb: int, f: int)
    requires
        -1074 <= ea,
        -1074 <= eb,
        -1074 <= f,
        mb > 0,
    ensures
        ({
            let num = (ma * power(2, (ea + 1074) as nat)) * units_per_one();
            let den = (mb * power(2, (eb + 1074) as nat)) * power(2, (f + 1074) as nat);
            let t = ea - eb - f;
            &&& den > 0
            &&& t >= 0 ==> {
                &&& num / den == (ma * power(2, t as nat)) / mb
                &&& round_half_even(num, den) == round_half_even(ma * power(2, t as nat), mb)
            }
            &&& t < 0 ==> {
                &&& mb * power(2, (-t) as nat) > 0
                &&& num / den == ma / (mb * power(2, (-t) as nat))
                &&& round_half_even(num, den) == round_half_even(ma, mb * power(2, (-t) as nat))
            }
        }),
{
    let pa = power(2, (ea + 1074) as nat);
    let pb = power(2, (eb + 1074) as nat);
    let pf = power(2, (f + 1074) as nat);
    let one = units_per_one();
    let t = ea - eb - f;
    lemma_power_positive(2, (ea + 1074) as nat);
    lemma_power_positive(2, (eb + 1074) as nat);
    lemma_power_positive(2, (f + 1074) as nat);
    lemma_power_positive(2, 1074);
    let num = (ma * pa) * one;
    let den = (mb * pb) * pf;
    assert(den > 0) by (nonlinear_arith)
        requires
            den == (mb * pb) * pf,
            mb > 0,
            pb > 0,
            pf > 0,
    ;
    if t >= 0 {
        let pt = power(2, t as nat);
        let k = pb * pf;
        lemma_power_adds(2, (eb + 1074) as nat, (f + 1074) as nat);
        lemma_power_adds(2, t as nat, (eb + f + 2148) as nat);
        lemma_power_adds(2, (ea + 1074) as nat, 1074);
        lemma_power_positive(2, (eb + f + 2148) as nat);
        assert(num == (ma * pt) * k) by (nonlinear_arith)
            requires
                num == (ma * pa) * one,
                pa * one == pt * k,
        ;
        assert(den == mb * k) by (nonlinear_arith)
            requires
                den == (mb * pb) * pf,
                k == pb * pf,
        ;
        lemma_rounding_cancels(ma * pt, mb, k);
    } else {
        let pt = power(2, (-t) as nat);
        let k = pa * one;
        lemma_power_positive(2, (-t) as nat);
        lemma_power_adds(2, (ea + 1074) as nat, 1074);
        lemma_power_adds(2, (eb + 1074) as nat, (f + 1074) as nat);
        lemma_power_adds(2, (-t) as nat, (ea + 2148) as nat);
        lemma_power_positive(2, (ea + 2148) as nat);
        assert(mb * pt > 0) by (nonlinear_arith)
            requires
                mb > 0,
                pt > 0,
        ;
        assert(num == ma * k) by (nonlinear_arith)
            requires
                num == (ma * pa) * one,
                k == pa * one,
        ;
        assert(den == (mb * pt) * k) by (nonlinear_arith)
            requires
                den == (mb * pb) * pf,
                pb * pf == pt * k,
        ;
        lemma_rounding_cancels(ma, mb * pt, k);
    }
}

/// The quotient of two finite numbers that are not zero, rounded at the
/// exponent that the quotient of the significands gives.
proof fn lemma_divide_rounds(ma: nat, ea: int, mb: nat, eb: int, c: int, f: int)
    requires
        0 < ma < 2 * HIDDEN_BIT,
        0 < mb < 2 * HIDDEN_BIT,
        -1074 <= ea <= 971,
        -1074 <= eb <= 971,
        ratio_at(ma, mb, c),
        ea - eb + c < 1024,
        f == if ea - eb + c - 52 > -1074 {
            ea - eb + c - 52
        } else {
            -1074
        },
    ensures
        ({
            let goal = nearest_magnitude(
                (ma * power(2, (ea + 1074) as nat)) * units_per_one(),
                mb * power(2, (eb + 1074) as nat),
            );
            let t = ea - eb - f;
            &&& t >= 0 ==> {
                &&& ma * power(2, t as nat) < power(2, 53) * mb
                &&& goal == magnitude_at(round_half_even(ma * power(2, t as nat), mb), f)
            }
            &&& t < 0 ==> goal == magnitude_at(
                round_half_even(ma, mb * power(2, (-t) as nat)),
                f,
            )
        }),
{
    let t = ea - eb - f;
    let num = (ma * power(2, (ea + 1074) as nat)) * units_per_one();
    let den = mb * power(2, (eb + 1074) as nat);
    lemma_powers_of_two();
    lemma_power_positive(2, (eb + 1074) as nat);
    assert(den > 0) by (nonlinear_arith)
        requires
            den == mb * power(2, (eb + 1074) as nat),
            mb > 0,
            power(2, (eb + 1074) as nat) > 0,
    ;
    lemma_quotient_at_step(ma, ea, mb, eb, f);
    let q = num / (den * power(2, (f + 1074) as nat));
    if t >= 0 {
        let x = ma * power(2, t as nat);
        lemma_power_grows(t as nat, (52 - c) as nat);
        assert(x <= ma * power(2, (52 - c) as nat)) by (nonlinear_arith)
            requires
                x == ma * power(2, t as nat),
                power(2, t as nat) <= power(2, (52 - c) as nat),
        ;
        if f > -1074 {
            lemma_quotient_between(x, mb, power(2, 52), power(2, 53));
        } else {
            lemma_quotient_between(x, mb, 0, power(2, 53));
        }
    } else {
        let d = mb * power(2, (-t) as nat);
        lemma_power_positive(2, (-t) as nat);
        assert(d >= 1) by (nonlinear_arith)
            requires
                d == mb * power(2, (-t) as nat),
                mb >= 1,
                power(2, (-t) as nat) >= 1,
        ;
        assert(ma / d <= ma) by (nonlinear_arith)
            requires
                d >= 1,
        ;
    }
    assert(fits(q, f));
    lemma_nearest_at_step(num, den, f);
}

/// A quotient that reaches two to the power of 1024 rounds to infinity.
proof fn lemma_divide_beyond(ma: nat, ea: int, mb: nat, eb: int, c: int)
    requires
        0 < mb,
        -1074 <= ea <= 971,
        -1074 <= eb <= 971,
        -53 <= c,
        ratio_at(ma, mb, c),
        ea - eb + c >= 1024,
    ensures
        nearest_magnitude(
            (ma * power(2, (ea + 1074) as nat)) * units_per_one(),
            mb * power(2, (eb + 1074) as nat),
        ) == INFINITY_MAGNITUDE,
{
    let pa = power(2, (ea + 1074) as nat);
    let pb = power(2, (eb + 1074) as nat);
    let one = units_per_one();
    let x = ma * power(2, (52 - c) as nat);
    let rest = power(2, (ea + 2096 + c) as nat);
    let far = power(2, (eb + 3120) as nat);
    lemma_powers_of_two();
    lemma_power_positive(2, (eb + 1074) as nat);
    lemma_power_adds(2, (ea + 1074) as nat, 1074);
    lemma_power_adds(2, (52 - c) as nat, (ea + 2096 + c) as nat);
    lemma_power_grows((eb + 3120) as nat, (ea + 2096 + c) as nat);
    lemma_power_adds(2, 52, (eb + 3120) as nat);
    lemma_power_adds(2, (eb + 1074) as nat, 2098);
    lemma_power_adds(2, 52, 2046);
    assert(units_of(INFINITY_MAGNITUDE as nat) == power(2, 52) * power(2, 2046)) by {
        assert(INFINITY_MAGNITUDE as nat / (HIDDEN_BIT as nat) == 2047);
        assert(INFINITY_MAGNITUDE as nat % (HIDDEN_BIT as nat) == 0);
    }
    let num = (ma * pa) * one;
    let den = mb * pb;
    assert(num == x * rest) by (nonlinear_arith)
        requires
            num == (ma * pa) * one,
            x == ma * power(2, (52 - c) as nat),
            pa * one == power(2, (52 - c) as nat) * rest,
    ;
    assert(x * rest >= (power(2, 52) * mb) * far) by (nonlinear_arith)
        requires
            x >= power(2, 52) * mb,
            rest >= far,
    ;
    assert(units_of(INFINITY_MAGNITUDE as nat) * den == (power(2, 52) * mb) * far)
        by (nonlinear_arith)
        requires
            units_of(INFINITY_MAGNITUDE as nat) == power(2, 2098),
            den == mb * pb,
            pb * power(2, 2098) == power(2, 52) * far,
    ;
    assert(den > 0) by (nonlinear_arith)
        requires
            den == mb * pb,
            mb > 0,
            pb > 0,
    ;
    lemma_nearest_beyond(num, den);
}

/// The quotient of two finite numbers that are not zero.
fn divide_finite(negative: bool, ma: u64, ea: i32, mb: u64, eb: i32) -> (r: Number)
    requires
        0 < ma < 2 * HIDDEN_BIT,
        0 < mb < 2 * HIDDEN_BIT,
        -1074 <= ea <= 971,
        -1074 <= eb <= 971,
    ensures
        r == nearest(
            negative,
            (ma as nat * power(2, (ea + 1074) as nat)) * units_per_one(),
            mb as nat * power(2, (eb + 1074) as nat),
        ),
{
    let sign: u64 = if negative {
        SIGN_BIT
    } else {
        0
    };
    let la: u32 = bit_length(ma as u128);
    let lb: u32 = bit_length(mb as u128);
    proof {
        lemma_powers_of_two();
        if la > 53 {
            lemma_power_grows(53, (la - 1) as nat);
        }
        if lb > 53 {
            lemma_power_grows(53, (lb - 1) as nat);
        }
        lemma_scale_bounds(ma as nat, 53, lb as nat);
        lemma_scale_bounds(mb as nat, 53, la as nat);
        lemma_power_grows((53 + lb) as nat, 106);
        lemma_power_grows((53 + la) as nat, 106);
        lemma_power_adds(2, 53, 53);
        assert(power(2, 106) == 0x20_0000_0000_0000 * 0x20_0000_0000_0000);
        lemma_ratio(ma as nat, la as nat, mb as nat, lb as nat);
    }
    let left: u128 = scaled_up(ma as u128, lb);
    let right: u128 = scaled_up(mb as u128, la);
    let c: i32 = if left >= right {
        la as i32 - lb as i32
    } else {
        la as i32 - lb as i32 - 1
    };
    let top: i32 = ea - eb + c;
    if top >= 1024 {
        proof {
            lemma_divide_beyond(ma as nat, ea as int, mb as nat, eb as int, c as int);
        }
        return Number { bits: sign + INFINITY_MAGNITUDE };
    }
    let f: i32 = if top - 52 > -1074 {
        top - 52
    } else {
        -1074
    };
    let t: i32 = ea - eb - f;
    proof {
        lemma_divide_rounds(ma as nat, ea as int, mb as nat, eb as int, c as int, f as int);
    }
    let m: u128 = if t >= 0 {
        proof {
            assert(power(2, 53) * mb <= 0x20_0000_0000_0000 * 0x20_0000_0000_0000)
                by (nonlinear_arith)
                requires
                    power(2, 53) == 0x20_0000_0000_0000,
                    mb < 0x20_0000_0000_0000,
            ;
        }
        let x: u128 = scaled_up(ma as u128, t as u32);
        rounded_half_even(x, mb as u128)
    } else if -t > 54 {
        proof {
            let d = mb as nat * power(2, (-t) as nat);
            lemma_power_grows(55, (-t) as nat);
            lemma_power_adds(2, 53, 2);
            assert(power(2, 2) == 4) by {
                reveal_with_fuel(power, 3);
            }
            assert(d >= power(2, 55)) by (nonlinear_arith)
                requires
                    d == mb as nat * power(2, (-t) as nat),
                    mb >= 1,
                    power(2, (-t) as nat) >= power(2, 55),
            ;
            vstd::arithmetic::div_mod::lemma_basic_div(ma as int, d as int);
            vstd::arithmetic::div_mod::lemma_small_mod(ma as nat, d);
        }
        0
    } else {
        proof {
            lemma_scale_bounds(mb as nat, 53, (-t) as nat);
            lemma_power_grows((53 - t) as nat, 107);
            lemma_power_adds(2, 53, 54);
            lemma_power_adds(2, 53, 1);
            assert(power(2, 1) == 2) by {
                reveal_with_fuel(power, 2);
            }
            assert(power(2, 107) == (0x20_0000_0000_0000 * 0x20_0000_0000_0000) * 2);
            lemma_power_positive(2, (-t) as nat);
            assert(mb * power(2, (-t) as nat) > 0) by (nonlinear_arith)
                requires
                    mb > 0,
                    power(2, (-t) as nat) > 0,
            ;
        }
        let d: u128 = scaled_up(mb as u128, (-t) as u32);
        rounded_half_even(ma as u128, d)
    };
    proof {
        let q = if t >= 0 {
            (ma as nat * power(2, t as nat)) / (mb as nat)
        } else {
            ma as nat / (mb as nat * power(2, (-t) as nat))
        };
        assert(m <= q + 1);
        if t >= 0 {
            if f > -1074 {
                lemma_quotient_between(
                    ma as nat * power(2, t as nat),
                    mb as nat,
                    0,
                    power(2, 53),
                );
            } else {
                lemma_quotient_between(
                    ma as nat * power(2, t as nat),
                    mb as nat,
                    0,
                    power(2, 53),
                );
            }
        } else {
            let d = mb as nat * power(2, (-t) as nat);
            lemma_power_positive(2, (-t) as nat);
            assert(d >= 1) by (nonlinear_arith)
                requires
                    d == mb as nat * power(2, (-t) as nat),
                    mb >= 1,
                    power(2, (-t) as nat) >= 1,
            ;
            assert(ma as nat / d <= ma) by (nonlinear_arith)
                requires
                    d >= 1,
            ;
        }
        assert(m <= 2 * HIDDEN_BIT);
    }
    let magnitude: u64 = ((f + 1074) as u64) * HIDDEN_BIT + m as u64;
    Number { bits: sign + magnitude }
}

/// The square root of a number: the number nearest to the exact root.
/// What is below zero has no root that is a number; minus zero is its own
/// root.
pub open spec fn square_root(a: Number) -> Number {
    if a.nan() || (a.negative() && a.magnitude() != 0) {
        not_a_number()
    } else if a.magnitude() == 0 || a.infinite() {
        a
    } else {
        signed(false, nearest_root(a.units() * units_per_one()))
    }
}

/// The whole part of the square root of `n`.
fn whole_root(n: u128) -> (s: u128)
    requires
        n < 0x400_0000_0000_0000_0000_0000_0000,
    ensures
        s * s <= n < (s + 1) * (s + 1),
        s < 0x20_0000_0000_0000,
{
    let mut s: u128 = 0;
    let mut window: u128 = 0x20_0000_0000_0000;
    let mut k: u32 = 53;
    proof {
        lemma_powers_of_two();
        assert(0x20_0000_0000_0000u128 * 0x20_0000_0000_0000u128
            == 0x400_0000_0000_0000_0000_0000_0000u128) by (nonlinear_arith);
        assert(power(2, 0) == 1);
    }
    while k > 0
        invariant
            k <= 53,
            window == power(2, k as nat),
            s + window <= 0x20_0000_0000_0000,
            s * s <= n < (s + window) * (s + window),
        decreases k,
    {
        proof {
            assert(power(2, k as nat) == 2 * power(2, (k - 1) as nat));
        }
        let b: u128 = window / 2;
        let candidate: u128 = s + b;
        assert(candidate * candidate <= 0x20_0000_0000_0000 * 0x20_0000_0000_0000)
            by (nonlinear_arith)
            requires
                candidate <= 0x20_0000_0000_0000,
        ;
        if candidate * candidate <= n {
            s = candidate;
        }
        window = b;
        k = k - 1;
    }
    s
}

/// The root of a number that is neither zero nor infinite, rounded at the
/// step of the result. The significand is doubled where that makes the
/// exponent even, and scaled by an even power of two to twice the length
/// of a significand.
proof fn lemma_root_rounds(m: nat, e: int, m2: nat, e2: int, shift: nat, n: nat, s: nat)
    requires
        -1074 <= e2 <= e <= 971,
        e2 % 2 == 0,
        shift % 2 == 0,
        shift <= 106,
        m2 == m * power(2, (e - e2) as nat),
        n == m2 * power(2, shift),
        s * s <= n < (s + 1) * (s + 1),
        HIDDEN_BIT <= s < 2 * HIDDEN_BIT,
    ensures
        nearest_root((m * power(2, (e + 1074) as nat)) * units_per_one()) == magnitude_at(
            if n - s * s > s {
                s + 1
            } else {
                s
            },
            e2 / 2 - shift / 2,
        ),
{
    let f = e2 / 2 - shift / 2;
    let p = power(2, (f + 1074) as nat);
    let w = (m * power(2, (e + 1074) as nat)) * units_per_one();
    lemma_power_adds(2, (f + 1074) as nat, (f + 1074) as nat);
    lemma_power_adds(2, shift, (2 * f + 2148) as nat);
    lemma_power_adds(2, (e - e2) as nat, (e2 + 2148) as nat);
    lemma_power_adds(2, (e + 1074) as nat, 1074);
    assert(shift + 2 * f + 2148 == e2 + 2148);
    assert(w == n * (p * p)) by (nonlinear_arith)
        requires
            w == (m * power(2, (e + 1074) as nat)) * units_per_one(),
            power(2, (e + 1074) as nat) * units_per_one() == power(2, (e - e2) as nat) * power(
                2,
                (e2 + 2148) as nat,
            ),
            power(2, (e2 + 2148) as nat) == power(2, shift) * (p * p),
            m2 == m * power(2, (e - e2) as nat),
            n == m2 * power(2, shift),
    ;
    lemma_nearest_root_at_step(w, n, s, f);
}

/// The square root of a finite number that is above zero.
fn root_finite(m: u64, e: i32) -> (r: Number)
    requires
        0 < m < 2 * HIDDEN_BIT,
        -1074 <= e <= 971,
    ensures
        r == signed(false, nearest_root((m as nat * power(2, (e + 1074) as nat)) * units_per_one())),
{
    proof {
        lemma_powers_of_two();
        assert(power(2, 0) == 1);
        assert(power(2, 1) == 2) by {
            reveal_with_fuel(power, 2);
        }
    }
    let odd: bool = (e + 1074) % 2 == 1;
    let m2: u64 = if odd {
        2 * m
    } else {
        m
    };
    let e2: i32 = if odd {
        e - 1
    } else {
        e
    };
    let l: u32 = bit_length(m2 as u128);
    proof {
        if l > 54 {
            lemma_power_grows(54, (l - 1) as nat);
            lemma_power_adds(2, 53, 1);
        }
    }
    let shift: u32 = if l % 2 == 0 {
        106 - l
    } else {
        105 - l
    };
    proof {
        lemma_scale_bounds(m2 as nat, l as nat, shift as nat);
        lemma_scale_bounds(m2 as nat, (l - 1) as nat, shift as nat);
        lemma_power_grows((l + shift) as nat, 106);
        lemma_power_grows(104, (l - 1 + shift) as nat);
        lemma_power_adds(2, 53, 53);
        lemma_power_adds(2, 52, 52);
        assert(power(2, 106) == 0x20_0000_0000_0000 * 0x20_0000_0000_0000);
        assert(power(2, 104) == 0x10_0000_0000_0000 * 0x10_0000_0000_0000);
        assert(0x20_0000_0000_0000 * 0x20_0000_0000_0000 == 0x400_0000_0000_0000_0000_0000_0000)
            by (nonlinear_arith);
    }
    let n: u128 = scaled_up(m2 as u128, shift);
    let s: u128 = whole_root(n);
    proof {
        assert(s >= 0x10_0000_0000_0000) by (nonlinear_arith)
            requires
                n < (s + 1) * (s + 1),
                n >= 0x10_0000_0000_0000 * 0x10_0000_0000_0000,
                s >= 0,
        ;
        assert(s * s <= 0x20_0000_0000_0000 * 0x20_0000_0000_0000) by (nonlinear_arith)
            requires
                0 <= s < 0x20_0000_0000_0000,
        ;
        assert(m2 == m * power(2, (e - e2) as nat)) by (nonlinear_arith)
            requires
                (m2 == 2 * m && power(2, (e - e2) as nat) == 2) || (m2 == m && power(
                    2,
                    (e - e2) as nat,
                ) == 1),
        ;
        lemma_root_rounds(
            m as nat,
            e as int,
            m2 as nat,
            e2 as int,
            shift as nat,
            n as nat,
            s as nat,
        );
    }
    let rest: u128 = n - s * s;
    let rounded: u128 = if rest > s {
        s + 1
    } else {
        s
    };
    let f: i32 = e2 / 2 - (shift / 2) as i32;
    let magnitude: u64 = ((f + 1074) as u64) * HIDDEN_BIT + rounded as u64;
    Number { bits: magnitude }
}

impl Number {
    /// The number nearest to a count.
    pub fn from_count(count: u64) -> (r: Number)
        ensures
            r == of_count(count),
    {
        round_dyadic(false, count as u128, 0)
    }

    /// The number with the other sign.
    pub fn negate(self) -> (r: Number)
        ensures
            r == negated(self),
    {
        if self.bits >= SIGN_BIT {
            Number { bits: self.bits - SIGN_BIT }
        } else {
            Number { bits: self.bits + SIGN_BIT }
        }
    }

    /// The sum of two numbers.
    pub fn plus(self, other: Number) -> (r: Number)
        ensures
            r == sum(self, other),
    {
        if self.is_nan() || other.is_nan() {
            return Number { bits: NAN_BITS };
        }
        match (self.parts(), other.parts()) {
            (None, None) => {
                if self.is_negative() != other.is_negative() {
                    Number { bits: NAN_BITS }
                } else {
                    self
                }
            },
            (None, Some(_)) => self,
            (Some(_), None) => other,
            (Some((ma, ea)), Some((mb, eb))) => {
                if ea >= eb {
                    add_ordered(self, ma, ea, other, mb, eb)
                } else {
                    add_ordered(other, mb, eb, self, ma, ea)
                }
            },
        }
    }

    /// The difference of two numbers.
    pub fn minus(self, other: Number) -> (r: Number)
        ensures
            r == difference(self, other),
    {
        self.plus(other.negate())
    }

    /// The quotient of two numbers.
    pub fn over(self, other: Number) -> (r: Number)
        ensures
            r == quotient(self, other),
    {
        let negative: bool = self.is_negative() != other.is_negative();
        if self.is_nan() || other.is_nan() {
            return Number { bits: NAN_BITS };
        }
        let sign: u64 = if negative {
            SIGN_BIT
        } else {
            0
        };
        match (self.parts(), other.parts()) {
            (None, None) => Number { bits: NAN_BITS },
            (None, Some(_)) => Number { bits: sign + INFINITY_MAGNITUDE },
            (Some(_), None) => Number { bits: sign },
            (Some((ma, ea)), Some((mb, eb))) => {
                proof {
                    crate::number::lemma_below_is_the_order_of_values(self, other);
                    crate::number::lemma_below_is_the_order_of_values(other, self);
                }
                if mb == 0 {
                    if ma == 0 {
                        Number { bits: NAN_BITS }
                    } else {
                        Number { bits: sign + INFINITY_MAGNITUDE }
                    }
                } else if ma == 0 {
                    proof {
                        lemma_nearest_of_nothing(other.units());
                        assert(0 * power(2, (ea + 1074) as nat) == 0) by (nonlinear_arith);
                        assert(0 * units_per_one() == 0) by (nonlinear_arith);
                    }
                    Number { bits: sign }
                } else {
                    divide_finite(negative, ma, ea, mb, eb)
                }
            },
        }
    }

    /// The square root of a number.
    pub fn sqrt(self) -> (r: Number)
        ensures
            r == square_root(self),
    {
        if self.is_nan() {
            return Number { bits: NAN_BITS };
        }
        if self.is_negative() {
            return if self.bits == SIGN_BIT {
                self
            } else {
                Number { bits: NAN_BITS }
            };
        }
        match self.parts() {
            None => self,
            Some((m, e)) => {
                proof {
                    crate::number::lemma_below_is_the_order_of_values(self, self);
                }
                if m == 0 {
                    self
                } else {
                    root_finite(m, e)
                }
            },
        }
    }

    /// The product of two numbers.
    pub fn times(self, other: Number) -> (r: Number)
        ensures
            r == product(self, other),
    {
        let negative: bool = self.is_negative() != other.is_negative();
        if self.is_nan() || other.is_nan() {
            return Number { bits: NAN_BITS };
        }
        let sign: u64 = if negative {
            SIGN_BIT
        } else {
            0
        };
        match (self.parts(), other.parts()) {
            (Some((ma, ea)), Some((mb, eb))) => {
                proof {
                    lemma_product_is_dyadic(ma as nat, ea as int, mb as nat, eb as int);
                    lemma_powers_of_two();
                }
                assert(ma * mb <= 0x20_0000_0000_0000 * 0x20_0000_0000_0000) by (nonlinear_arith)
                    requires
                        ma < 0x20_0000_0000_0000,
                        mb < 0x20_0000_0000_0000,
                ;
                round_dyadic(negative, (ma as u128) * (mb as u128), ea + eb)
            },
            _ => {
                if self.to_bits() == 0 || self.to_bits() == SIGN_BIT || other.to_bits() == 0
                    || other.to_bits() == SIGN_BIT {
                    Number { bits: NAN_BITS }
                } else {
                    Number { bits: sign + INFINITY_MAGNITUDE }
                }
            },
        }
    }
}

} // verus!
