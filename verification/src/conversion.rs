//! From decimals to numbers: the number nearest to digits times a power of
//! ten.

use crate::decimal::{
    are_digits, digits_value, lemma_digits_bound, lemma_digits_of_nothing, lemma_digits_quotient,
    lemma_digits_value_push, times_digit, times_power_of_ten, whole_part,
};
use crate::nearest::{
    fits, lemma_floor_is, lemma_nearest_at_step, lemma_nearest_beyond, lemma_units_at,
    magnitude_at, nearest, nearest_magnitude,
};
use crate::number::{
    units_of, units_per_one, Number, HIDDEN_BIT, INFINITY_MAGNITUDE, SIGN_BIT,
};
use crate::rounding::{
    lemma_equal_fractions, lemma_power_adds, lemma_power_grows, lemma_power_grows_ten,
    lemma_power_positive, lemma_powers_of_two, lemma_quotient_between, lemma_ten_beats_eight,
    power, round_half_even,
};
use vstd::prelude::*;

verus! {

/// The numerator of `d * 10^x`, counted in the smallest positive number.
pub open spec fn decimal_num(d: nat, x: int) -> nat {
    if x >= 0 {
        (d * power(10, x as nat)) * units_per_one()
    } else {
        d * units_per_one()
    }
}

/// The denominator of `d * 10^x`, counted in the smallest positive number.
pub open spec fn decimal_den(x: int) -> nat {
    if x >= 0 {
        1
    } else {
        power(10, (-x) as nat)
    }
}

/// Whether the lowest `n` digits are all zero.
pub(crate) fn zero_below(d: &Vec<u8>, n: usize) -> (r: bool)
    requires
        n <= d.len(),
    ensures
        r == forall|k: int| 0 <= k < n ==> d[k] == 0,
{
    let mut i: usize = 0;
    while i < n
        invariant
            i <= n <= d.len(),
            forall|k: int| 0 <= k < i ==> d[k] == 0,
        decreases n - i,
    {
        if d[i] != 0 {
            return false;
        }
        i = i + 1;
    }
    true
}

/// Whether the lowest `p` digits reach half of ten to the power of `p`,
/// and whether they go beyond it.
fn fraction_side(d: &Vec<u8>, p: usize) -> (side: (bool, bool))
    requires
        are_digits(d@),
        p <= d.len(),
    ensures
        side.0 == (2 * digits_value(d@.take(p as int)) >= power(10, p as nat)),
        side.1 == (2 * digits_value(d@.take(p as int)) > power(10, p as nat)),
{
    if p == 0 {
        assert(d@.take(0) =~= Seq::<u8>::empty());
        assert(power(10, 0) == 1);
        return (false, false);
    }
    let top: u8 = d[p - 1];
    let ghost low = d@.take(p - 1);
    let ghost t = power(10, (p - 1) as nat);
    proof {
        assert(d@.take(p as int) =~= low.push(top));
        lemma_digits_value_push(low, top);
        lemma_digits_bound(low);
        lemma_digits_of_nothing(low);
        assert(power(10, p as nat) == 10 * t);
        assert(top * t >= 6 * t || top <= 5) by (nonlinear_arith)
            requires
                t >= 0,
        ;
        assert(top * t <= 4 * t || top >= 5) by (nonlinear_arith)
            requires
                t >= 0,
        ;
        assert(top == 5 ==> top * t == 5 * t);
    }
    if top > 5 {
        (true, true)
    } else if top < 5 {
        (false, false)
    } else {
        let nothing: bool = zero_below(d, p - 1);
        proof {
            if nothing {
                assert forall|k: int| 0 <= k < low.len() implies low[k] == 0 by {
                    assert(low[k] == d[k]);
                }
            } else {
                let k = choose|k: int| 0 <= k < p - 1 && d[k] != 0;
                assert(low[k] != 0);
            }
        }
        (true, !nothing)
    }
}

/// Where a quantity is as many digits over a power of ten, times a power
/// of two, and the whole part of the digits is a significand of the
/// exponent, the nearest magnitude is that of the digits, rounded at the
/// place.
proof fn lemma_decimal_rounds(num: nat, den: nat, value: nat, p: nat, e: int)
    requires
        den > 0,
        -1074 <= e <= 971,
        num * power(10, p) == value * (den * power(2, (e + 1074) as nat)),
        fits(value / power(10, p), e),
    ensures
        nearest_magnitude(num, den) == magnitude_at(round_half_even(value, power(10, p)), e),
{
    let step = power(2, (e + 1074) as nat);
    lemma_power_positive(2, (e + 1074) as nat);
    lemma_power_positive(10, p);
    assert(den * step > 0) by (nonlinear_arith)
        requires
            den > 0,
            step > 0,
    ;
    lemma_equal_fractions(num, den * step, value, power(10, p));
    lemma_nearest_at_step(num, den, e);
}

/// Where the whole part of the digits has the hidden bit beyond the
/// greatest exponent, the quantity rounds to infinity.
proof fn lemma_decimal_beyond(num: nat, den: nat, value: nat, p: nat)
    requires
        den > 0,
        num * power(10, p) == value * (den * power(2, 2046)),
        value >= power(2, 52) * power(10, p),
    ensures
        nearest_magnitude(num, den) == INFINITY_MAGNITUDE,
{
    let t = power(10, p);
    lemma_power_positive(10, p);
    lemma_powers_of_two();
    lemma_power_positive(2, 2046);
    assert(units_of(INFINITY_MAGNITUDE as nat) == power(2, 52) * power(2, 2046)) by {
        assert(INFINITY_MAGNITUDE as nat / (HIDDEN_BIT as nat) == 2047);
        assert(INFINITY_MAGNITUDE as nat % (HIDDEN_BIT as nat) == 0);
    }
    let big = power(2, 52) * power(2, 2046);
    assert(num * t >= (big * den) * t) by (nonlinear_arith)
        requires
            num * t == value * (den * power(2, 2046)),
            value >= power(2, 52) * t,
            big == power(2, 52) * power(2, 2046),
            den > 0,
            power(2, 2046) > 0,
    ;
    assert(num >= big * den) by (nonlinear_arith)
        requires
            num * t >= (big * den) * t,
            t > 0,
    ;
    lemma_nearest_beyond(num, den);
}

/// The digits over ten to the power of `p`, as far as the quotient is
/// below `cap`: from `cap` on it comes out as `cap`.
fn leading(n: &Vec<u8>, p: u128, cap: u64) -> (q: u64)
    requires
        are_digits(n@),
        cap <= 0x40_0000_0000_0000,
    ensures
        digits_value(n@) / power(10, p as nat) < cap ==> q == digits_value(n@) / power(
            10,
            p as nat,
        ),
        digits_value(n@) / power(10, p as nat) >= cap ==> q == cap,
{
    if p >= n.len() as u128 {
        proof {
            lemma_digits_bound(n@);
            lemma_power_grows_ten(n.len() as nat, p as nat);
            vstd::arithmetic::div_mod::lemma_basic_div(
                digits_value(n@) as int,
                power(10, p as nat) as int,
            );
        }
        0
    } else {
        proof {
            lemma_digits_quotient(n@, p as nat);
        }
        whole_part(n, p as usize, cap)
    }
}

/// Whether the digits below the place `p` reach half of ten to the power
/// of `p`, and whether they go beyond it.
pub(crate) fn trailing(n: &Vec<u8>, p: u128) -> (side: (bool, bool))
    requires
        are_digits(n@),
    ensures
        side.0 == (2 * (digits_value(n@) % power(10, p as nat)) >= power(10, p as nat)),
        side.1 == (2 * (digits_value(n@) % power(10, p as nat)) > power(10, p as nat)),
{
    if p > n.len() as u128 {
        proof {
            lemma_digits_bound(n@);
            lemma_power_grows_ten(n.len() as nat, (p - 1) as nat);
            assert(power(10, p as nat) == 10 * power(10, (p - 1) as nat));
            vstd::arithmetic::div_mod::lemma_small_mod(digits_value(n@), power(10, p as nat));
        }
        (false, false)
    } else {
        proof {
            lemma_digits_quotient(n@, p as nat);
        }
        fraction_side(n, p as usize)
    }
}

/// The number nearest to the digits times ten to the power of `x`, under
/// a sign. The digits are scaled by powers of two, exactly, until their
/// whole part is a significand: halved as five tenths, doubled as they
/// are.
pub(crate) fn nearest_decimal(negative: bool, digits: &Vec<u8>, x: i128) -> (r: Number)
    requires
        are_digits(digits@),
        -0x100_0000_0000_0000_0000_0000_0000_0000 <= x <= 1000,
    ensures
        r == nearest(
            negative,
            decimal_num(digits_value(digits@), x as int),
            decimal_den(x as int),
        ),
{
    let sign: u64 = if negative {
        SIGN_BIT
    } else {
        0
    };
    let ghost num = decimal_num(digits_value(digits@), x as int);
    let ghost den = decimal_den(x as int);
    let ghost unit = units_per_one();
    let zeros: usize = if x >= 0 {
        x as usize
    } else {
        0
    };
    let places: u128 = if x >= 0 {
        0
    } else {
        (-x) as u128
    };
    let mut p: u128 = places;
    let mut e: i32 = 0;
    let mut n: Vec<u8> = times_power_of_ten(digits, zeros);
    proof {
        lemma_powers_of_two();
        lemma_power_positive(10, places as nat);
        assert(power(10, 0) == 1);
        let d = digits_value(digits@);
        let t = power(10, p as nat);
        let z = power(10, zeros as nat);
        assert(num * t == digits_value(n@) * (den * unit)) by (nonlinear_arith)
            requires
                digits_value(n@) == z * d,
                (num == (d * z) * unit && den == 1 && t == 1) || (num == d * unit && den == t
                    && z == 1),
        ;
    }
    let mut q: u64 = leading(&n, p, 0x20_0000_0000_0000);
    while q >= 0x20_0000_0000_0000 && e < 972
        invariant
            0 <= e <= 972,
            p == places + e,
            places <= 0x100_0000_0000_0000_0000_0000_0000_0000,
            den > 0,
            are_digits(n@),
            num * power(10, p as nat) == digits_value(n@) * (den * power(2, (e + 1074) as nat)),
            digits_value(n@) / power(10, p as nat) < 0x20_0000_0000_0000 ==> q == digits_value(n@)
                / power(10, p as nat),
            digits_value(n@) / power(10, p as nat) >= 0x20_0000_0000_0000 ==> q
                == 0x20_0000_0000_0000,
            e >= 1 ==> digits_value(n@) / power(10, p as nat) >= 0x10_0000_0000_0000,
        decreases 972 - e,
    {
        proof {
            let t = power(10, p as nat);
            let s = power(2, (e + 1074) as nat);
            let v = digits_value(n@);
            lemma_power_positive(10, p as nat);
            assert(power(10, (p + 1) as nat) == 10 * t);
            assert(power(2, (e + 1075) as nat) == 2 * s);
            assert(num * (10 * t) == (5 * v) * (den * (2 * s))) by (nonlinear_arith)
                requires
                    num * t == v * (den * s),
            ;
            assert(v >= 0x20_0000_0000_0000 * t) by (nonlinear_arith)
                requires
                    v / t >= 0x20_0000_0000_0000,
                    t > 0,
                    v >= 0,
            ;
            assert(0x10_0000_0000_0000 * (10 * t) <= 5 * v) by (nonlinear_arith)
                requires
                    v >= 0x20_0000_0000_0000 * t,
            ;
            assert(5 * v < (5 * v + 1) * (10 * t)) by (nonlinear_arith)
                requires
                    t >= 1,
                    v >= 0,
            ;
            lemma_quotient_between(5 * v, 10 * t, 0x10_0000_0000_0000, 5 * v + 1);
        }
        n = times_digit(&n, 5);
        p = p + 1;
        e = e + 1;
        q = leading(&n, p, 0x20_0000_0000_0000);
    }
    if e == 972 {
        proof {
            lemma_power_positive(10, p as nat);
            let t = power(10, p as nat);
            let v = digits_value(n@);
            assert(v >= power(2, 52) * t) by (nonlinear_arith)
                requires
                    v / t >= power(2, 52),
                    t > 0,
                    v >= 0,
            ;
            lemma_decimal_beyond(num, den, v, p as nat);
        }
        return Number { bits: sign + INFINITY_MAGNITUDE };
    }
    while q < 0x10_0000_0000_0000 && e > -1074
        invariant
            -1074 <= e <= 971,
            den > 0,
            are_digits(n@),
            q < 0x20_0000_0000_0000,
            num * power(10, p as nat) == digits_value(n@) * (den * power(2, (e + 1074) as nat)),
            q == digits_value(n@) / power(10, p as nat),
        decreases e + 1074,
    {
        proof {
            let t = power(10, p as nat);
            let s = power(2, (e + 1073) as nat);
            let v = digits_value(n@);
            lemma_power_positive(10, p as nat);
            assert(power(2, (e + 1074) as nat) == 2 * s);
            assert(num * t == (2 * v) * (den * s)) by (nonlinear_arith)
                requires
                    num * t == v * (den * (2 * s)),
            ;
            assert((2 * v) / t <= 2 * (v / t) + 1) by (nonlinear_arith)
                requires
                    t > 0,
                    v >= 0,
            ;
        }
        n = times_digit(&n, 2);
        e = e - 1;
        q = leading(&n, p, 0x20_0000_0000_0000);
    }
    let (half, beyond) = trailing(&n, p);
    let m: u64 = if half && (beyond || q % 2 == 1) {
        q + 1
    } else {
        q
    };
    proof {
        lemma_decimal_rounds(num, den, digits_value(n@), p as nat, e as int);
        crate::nearest::lemma_units_at(m as nat, e as int);
    }
    let magnitude: u64 = ((e + 1074) as u64) * HIDDEN_BIT + m;
    Number { bits: sign + magnitude }
}

/// Digits that are not nothing, times ten to a power from 400 on, round
/// to infinity.
pub proof fn lemma_decimal_overflows(d: nat, x: int)
    requires
        d >= 1,
        x >= 400,
    ensures
        nearest_magnitude(decimal_num(d, x), decimal_den(x)) == INFINITY_MAGNITUDE,
{
    let unit = units_per_one();
    lemma_powers_of_two();
    lemma_power_positive(2, 1074);
    lemma_ten_beats_eight(x as nat);
    lemma_power_grows(1024, (3 * x) as nat);
    lemma_power_adds(2, 1024, 1074);
    lemma_power_adds(2, 52, 2046);
    assert(units_of(INFINITY_MAGNITUDE as nat) == power(2, 52) * power(2, 2046)) by {
        assert(INFINITY_MAGNITUDE as nat / (HIDDEN_BIT as nat) == 2047);
        assert(INFINITY_MAGNITUDE as nat % (HIDDEN_BIT as nat) == 0);
    }
    let t = power(10, x as nat);
    assert((d * t) * unit >= power(2, 1024) * unit) by (nonlinear_arith)
        requires
            d >= 1,
            t >= power(2, 1024),
            unit > 0,
    ;
    assert(units_of(INFINITY_MAGNITUDE as nat) * 1 == power(2, 1024) * unit);
    lemma_nearest_beyond(decimal_num(d, x), 1);
}

/// Digits times ten to a power that is 400 and more below their number
/// round to zero.
pub proof fn lemma_decimal_vanishes(d: nat, x: int, n: nat)
    requires
        d < power(10, n),
        x <= -(n + 400),
    ensures
        nearest_magnitude(decimal_num(d, x), decimal_den(x)) == 0,
{
    let unit = units_per_one();
    let num = decimal_num(d, x);
    let den = decimal_den(x);
    let rest = (-x - n) as nat;
    lemma_power_positive(2, 1074);
    lemma_power_positive(10, n);
    lemma_power_adds(10, n, rest);
    lemma_ten_beats_eight(rest);
    lemma_power_grows(1075, 3 * rest);
    assert(power(2, 1075) == 2 * unit);
    let t = power(10, n);
    let far = power(10, rest);
    assert(2 * (d * unit) < t * far) by (nonlinear_arith)
        requires
            d < t,
            far >= 2 * unit,
            unit > 0,
    ;
    lemma_units_at(0, -1074);
    lemma_units_at(1, -1074);
    assert(power(2, 0) == 1);
    assert(units_of(0) == 0 && units_of(1) == 1) by {
        assert(magnitude_at(0, -1074) == 0);
        assert(magnitude_at(1, -1074) == 1);
        assert(0 * power(2, 0) == 0 && 1 * power(2, 0) == 1) by (nonlinear_arith)
            requires
                power(2, 0) == 1,
        ;
    }
    assert(units_of(0) * den == 0 && units_of(1) * den == den && (units_of(0) + units_of(1))
        * den == den) by (nonlinear_arith)
        requires
            units_of(0) == 0,
            units_of(1) == 1,
    ;
    lemma_floor_is(0, num, den);
}

} // verus!
