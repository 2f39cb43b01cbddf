//! The shortest text of a number: the fewest digits that read back as the
//! number.

use crate::decimal::{
    are_digits, digits_of, digits_value, doubled, lemma_digits_are_decimal,
    lemma_digits_of_nothing, lemma_digits_quotient, lemma_digits_value_push, normal, times_digit,
};
use crate::fixed::sign_text;
use crate::nearest::{lemma_nearest_grows, lemma_nearest_of_exact, nearest_magnitude};
use crate::number::{units_of, units_per_one, Number, INFINITY_MAGNITUDE};
use crate::conversion::{decimal_den, decimal_num, nearest_decimal, trailing};
use crate::rounding::{
    lemma_power_adds, lemma_power_grows, lemma_power_grows_ten, lemma_power_positive,
    lemma_powers_of_two, lemma_quotient_between, lemma_scale_bounds, lemma_ten_beats_eight,
    lemma_ten_is_two_times_five, power,
};
use crate::text::{decimal, digit, push_copies, push_digits, repeat, tail_of, zero_padded};
use vstd::prelude::*;
use vstd::string::*;

verus! {

/// Whether the decimal `d * 10^x` reads as the magnitude of `n`: whether
/// no magnitude is nearer to it.
pub open spec fn reads_as(d: nat, x: int, n: Number) -> bool {
    nearest_magnitude(decimal_num(d, x), decimal_den(x)) == n.magnitude()
}

/// The places of the exact decimal of a finite number: as many as its
/// exponent is below zero.
pub open spec fn exact_places(n: Number) -> nat {
    if n.exponent() < 0 {
        (-n.exponent()) as nat
    } else {
        0
    }
}

/// The digits of the exact decimal of a finite number, as one whole number:
/// the absolute value is this over ten to the power of the places.
pub open spec fn exact_digits(n: Number) -> nat {
    if n.exponent() < 0 {
        n.significand() * power(5, (-n.exponent()) as nat)
    } else {
        n.significand() * power(2, n.exponent() as nat)
    }
}

/// The exact decimal of a finite number is its value.
pub proof fn lemma_exact_decimal(n: Number)
    requires
        n.finite(),
    ensures
        exact_digits(n) * units_per_one() == n.units() * power(10, exact_places(n)),
{
    let m = n.significand();
    let e = n.exponent();
    let one = units_per_one();
    if e < 0 {
        let p = (-e) as nat;
        lemma_ten_is_two_times_five(p);
        lemma_power_adds(2, (e + 1074) as nat, p);
        assert((m * power(5, p)) * one == (m * power(2, (e + 1074) as nat)) * (power(2, p)
            * power(5, p))) by (nonlinear_arith)
            requires
                one == power(2, (e + 1074) as nat) * power(2, p),
        ;
    } else {
        lemma_power_adds(2, e as nat, 1074);
        assert(power(10, 0) == 1);
        assert((m * power(2, e as nat)) * one == (m * (power(2, e as nat) * one)) * 1)
            by (nonlinear_arith);
    }
}

/// Two decimals in their order, as whole numbers of the lesser exponent.
pub open spec fn decimal_le(d1: nat, x1: int, d2: nat, x2: int) -> bool {
    let z = if x1 <= x2 {
        x1
    } else {
        x2
    };
    d1 * power(10, (x1 - z) as nat) <= d2 * power(10, (x2 - z) as nat)
}

/// The order of two decimals is the order of their quantities.
pub proof fn lemma_decimal_order(d1: nat, x1: int, d2: nat, x2: int)
    ensures
        decimal_den(x1) > 0,
        decimal_den(x2) > 0,
        decimal_le(d1, x1, d2, x2) <==> decimal_num(d1, x1) * decimal_den(x2) <= decimal_num(
            d2,
            x2,
        ) * decimal_den(x1),
{
    let one = units_per_one();
    lemma_power_positive(2, 1074);
    let z = if x1 <= x2 {
        x1
    } else {
        x2
    };
    let a = power(10, (x1 - z) as nat);
    let b = power(10, (x2 - z) as nat);
    lemma_power_positive(10, (x1 - z) as nat);
    lemma_power_positive(10, (x2 - z) as nat);
    assert(power(10, 0) == 1);
    let c = if z >= 0 {
        power(10, z as nat)
    } else {
        1
    };
    let lift = if z >= 0 {
        1
    } else {
        power(10, (-z) as nat)
    };
    lemma_power_positive(10, z as nat);
    lemma_power_positive(10, (-z) as nat);
    if x1 >= 0 {
        lemma_power_positive(10, x1 as nat);
    } else {
        lemma_power_positive(10, (-x1) as nat);
    }
    if x2 >= 0 {
        lemma_power_positive(10, x2 as nat);
    } else {
        lemma_power_positive(10, (-x2) as nat);
    }
    lemma_scaled_decimal(d1, x1, z);
    lemma_scaled_decimal(d2, x2, z);
    let n1 = decimal_num(d1, x1);
    let n2 = decimal_num(d2, x2);
    let q1 = decimal_den(x1);
    let q2 = decimal_den(x2);
    let k = one * c;
    assert(k > 0) by (nonlinear_arith)
        requires
            one > 0,
            c > 0,
            k == one * c,
    ;
    assert(n1 * lift == ((d1 * a) * k) * q1);
    assert(n2 * lift == ((d2 * b) * k) * q2);
    assert((d1 * a <= d2 * b) == (n1 * q2 <= n2 * q1)) by (nonlinear_arith)
        requires
            n1 * lift == ((d1 * a) * k) * q1,
            n2 * lift == ((d2 * b) * k) * q2,
            k > 0,
            lift > 0,
            q1 > 0,
            q2 > 0,
    ;
}

/// A decimal over the common factor of a lesser exponent.
proof fn lemma_scaled_decimal(d: nat, x: int, z: int)
    requires
        z <= x,
    ensures
        ({
            let c = if z >= 0 {
                power(10, z as nat)
            } else {
                1
            };
            let lift = if z >= 0 {
                1
            } else {
                power(10, (-z) as nat)
            };
            decimal_num(d, x) * lift == ((d * power(10, (x - z) as nat)) * (units_per_one() * c))
                * decimal_den(x)
        }),
{
    let one = units_per_one();
    let a = power(10, (x - z) as nat);
    assert(power(10, 0) == 1);
    if z >= 0 {
        lemma_power_adds(10, (x - z) as nat, z as nat);
        let c = power(10, z as nat);
        assert(((d * power(10, x as nat)) * one) * 1 == ((d * a) * (one * c)) * 1)
            by (nonlinear_arith)
            requires
                power(10, x as nat) == a * c,
        ;
    } else if x >= 0 {
        lemma_power_adds(10, x as nat, (-z) as nat);
        let lift = power(10, (-z) as nat);
        assert(((d * power(10, x as nat)) * one) * lift == ((d * a) * (one * 1)) * 1)
            by (nonlinear_arith)
            requires
                a == power(10, x as nat) * lift,
        ;
    } else {
        lemma_power_adds(10, (x - z) as nat, (-x) as nat);
        let lift = power(10, (-z) as nat);
        let q = power(10, (-x) as nat);
        assert((d * one) * lift == ((d * a) * (one * 1)) * q) by (nonlinear_arith)
            requires
                lift == a * q,
        ;
    }
}

/// The number of digits of a whole number.
pub open spec fn length(n: nat) -> nat {
    decimal(n).len()
}

/// A whole number that is not zero lies between the powers of ten of its
/// length.
pub proof fn lemma_length(n: nat)
    requires
        n >= 1,
    ensures
        length(n) >= 1,
        power(10, (length(n) - 1) as nat) <= n < power(10, length(n)),
    decreases n,
{
    assert(power(10, 0) == 1);
    if n < 10 {
        assert(power(10, 1) == 10 * power(10, 0));
    } else {
        lemma_length(n / 10);
        let l = length(n / 10);
        assert(length(n) == l + 1);
        assert(power(10, l + 1) == 10 * power(10, l));
        assert(power(10, l) == 10 * power(10, (l - 1) as nat));
    }
}

/// The first `k` digits of the exact decimal of a number, as a whole
/// number.
pub open spec fn lower(n: Number, k: nat) -> nat {
    exact_digits(n) / power(10, (length(exact_digits(n)) - k) as nat)
}

/// The exponent of ten at which the first `k` digits of the exact decimal
/// stand.
pub open spec fn place(n: Number, k: nat) -> int {
    length(exact_digits(n)) - k - exact_places(n)
}

/// Whether one of the two decimals of `k` digits that enclose the number
/// reads as the number.
pub open spec fn found(n: Number, k: nat) -> bool {
    reads_as(lower(n, k), place(n, k), n) || reads_as(lower(n, k) + 1, place(n, k), n)
}

/// The least number of digits from `k` on with which a decimal that
/// encloses the number reads as the number.
pub open spec fn least_length(n: Number, k: nat) -> nat
    decreases length(exact_digits(n)) - k,
{
    if k >= length(exact_digits(n)) || found(n, k) {
        k
    } else {
        least_length(n, k + 1)
    }
}

/// The number of digits of the shortest decimal that reads as the number.
pub open spec fn shortest_length(n: Number) -> nat {
    least_length(n, 1)
}

/// The first `k` digits of the exact decimal are `k` digits; they are not
/// above the number, and one more in the last of them is above it.
proof fn lemma_enclosed(n: Number, k: nat)
    requires
        n.finite(),
        exact_digits(n) >= 1,
        1 <= k <= length(exact_digits(n)),
    ensures
        power(10, (k - 1) as nat) <= lower(n, k) < power(10, k),
        decimal_le(lower(n, k), place(n, k), exact_digits(n), -(exact_places(n) as int)),
        !decimal_le(lower(n, k) + 1, place(n, k), exact_digits(n), -(exact_places(n) as int)),
{
    let big = exact_digits(n);
    let l = length(big);
    let q = (l - k) as nat;
    let t = power(10, q);
    lemma_length(big);
    lemma_power_positive(10, q);
    lemma_power_adds(10, (k - 1) as nat, q);
    lemma_power_adds(10, k, q);
    assert(power(10, (k - 1) as nat) * t <= big < power(10, k) * t);
    lemma_quotient_between(big, t, power(10, (k - 1) as nat), power(10, k));
    let low = big / t;
    assert(big == low * t + big % t && big % t < t) by (nonlinear_arith)
        requires
            t > 0,
            low == big / t,
    ;
    assert(power(10, 0) == 1);
    assert(big * 1 == big);
    assert((low + 1) * t == low * t + t) by (nonlinear_arith);
}

/// The exact decimal of a number reads as the number.
proof fn lemma_exact_reads(n: Number)
    requires
        n.finite(),
    ensures
        reads_as(exact_digits(n), -(exact_places(n) as int), n),
{
    let big = exact_digits(n);
    let p = exact_places(n);
    let one = units_per_one();
    lemma_exact_decimal(n);
    lemma_power_positive(10, p);
    assert(power(10, 0) == 1);
    let num = decimal_num(big, -(p as int));
    let den = decimal_den(-(p as int));
    assert(num * 1 == n.units() * den && n.units() * den == num * 1) by {
        if p == 0 {
            assert(num == (big * 1) * one);
            assert((big * 1) * one == big * one) by (nonlinear_arith);
        }
    }
    lemma_nearest_grows(num, den, n.units(), 1);
    lemma_nearest_grows(n.units(), 1, num, den);
    lemma_nearest_of_exact(n.magnitude(), 1);
    assert(units_of(n.magnitude()) * 1 == n.units());
}

/// Between a decimal that reads as a number and the number, every decimal
/// reads as the number.
proof fn lemma_squeezed(n: Number, d: nat, x: int, c: nat, y: int)
    requires
        n.finite(),
        reads_as(c, y, n),
        (decimal_le(c, y, d, x) && decimal_le(d, x, exact_digits(n), -(exact_places(n) as int)))
            || (decimal_le(d, x, c, y) && decimal_le(
            exact_digits(n),
            -(exact_places(n) as int),
            d,
            x,
        )),
    ensures
        reads_as(d, x, n),
{
    let big = exact_digits(n);
    let p = -(exact_places(n) as int);
    lemma_exact_reads(n);
    lemma_decimal_order(c, y, d, x);
    lemma_decimal_order(d, x, c, y);
    lemma_decimal_order(d, x, big, p);
    lemma_decimal_order(big, p, d, x);
    if decimal_le(c, y, d, x) && decimal_le(d, x, big, p) {
        lemma_nearest_grows(decimal_num(c, y), decimal_den(y), decimal_num(d, x), decimal_den(x));
        lemma_nearest_grows(decimal_num(d, x), decimal_den(x), decimal_num(big, p), decimal_den(p));
    } else {
        lemma_nearest_grows(decimal_num(d, x), decimal_den(x), decimal_num(c, y), decimal_den(y));
        lemma_nearest_grows(decimal_num(big, p), decimal_den(p), decimal_num(d, x), decimal_den(x));
    }
}

/// A decimal of `k` digits or fewer is not above the first `k` digits of
/// the exact decimal, or not below one more in the last of them.
proof fn lemma_outside(n: Number, k: nat, c: nat, y: int)
    requires
        n.finite(),
        exact_digits(n) >= 1,
        1 <= k <= length(exact_digits(n)),
        c < power(10, k),
    ensures
        decimal_le(c, y, lower(n, k), place(n, k)) || decimal_le(
            lower(n, k) + 1,
            place(n, k),
            c,
            y,
        ),
{
    let low = lower(n, k);
    let x = place(n, k);
    lemma_enclosed(n, k);
    assert(power(10, 0) == 1);
    if y >= x {
        let t = power(10, (y - x) as nat);
        lemma_power_positive(10, (y - x) as nat);
        let whole = c * t;
        assert(low * 1 == low && (low + 1) * 1 == low + 1);
        assert(whole <= low || whole >= low + 1);
    } else {
        let t = power(10, (x - y) as nat);
        lemma_power_positive(10, (x - y) as nat);
        assert(t == 10 * power(10, (x - y - 1) as nat));
        lemma_power_positive(10, (x - y - 1) as nat);
        assert(power(10, k) == 10 * power(10, (k - 1) as nat));
        assert(c * 1 <= low * t) by (nonlinear_arith)
            requires
                c < 10 * power(10, (k - 1) as nat),
                power(10, (k - 1) as nat) <= low,
                t >= 10,
        ;
    }
}

/// Where neither of the two decimals of `k` digits that enclose a number
/// reads as the number, no decimal of `k` digits or fewer does.
proof fn lemma_none_of_length(n: Number, k: nat, c: nat, y: int)
    requires
        n.finite(),
        exact_digits(n) >= 1,
        1 <= k <= length(exact_digits(n)),
        !found(n, k),
        c < power(10, k),
    ensures
        !reads_as(c, y, n),
{
    lemma_outside(n, k, c, y);
    lemma_enclosed(n, k);
    let low = lower(n, k);
    let x = place(n, k);
    let big = exact_digits(n);
    let p = -(exact_places(n) as int);
    if reads_as(c, y, n) {
        if decimal_le(c, y, low, x) {
            lemma_squeezed(n, low, x, c, y);
        } else {
            lemma_decimal_total(low + 1, x, big, p);
            lemma_squeezed(n, low + 1, x, c, y);
        }
    }
}

/// Of two decimals, one is not above the other.
proof fn lemma_decimal_total(d1: nat, x1: int, d2: nat, x2: int)
    ensures
        decimal_le(d1, x1, d2, x2) || decimal_le(d2, x2, d1, x1),
{
}

/// No decimal of fewer digits than the shortest reads as the number.
pub proof fn lemma_no_shorter(n: Number, c: nat, y: int)
    requires
        n.finite(),
        n.magnitude() != 0,
        c < power(10, (shortest_length(n) - 1) as nat),
    ensures
        !reads_as(c, y, n),
{
    lemma_exact_is_something(n);
    lemma_length(exact_digits(n));
    assert(power(10, 0) == 1);
    assert forall|c2: nat, y2: int| c2 < power(10, 0) implies !#[trigger] reads_as(c2, y2, n) by {
        assert(decimal_num(0, y2) == 0) by {
            assert(0 * units_per_one() == 0) by (nonlinear_arith);
            assert((0 * power(10, y2 as nat)) * units_per_one() == 0) by (nonlinear_arith);
        }
        lemma_power_positive(10, (-y2) as nat);
        crate::arith::lemma_nearest_of_nothing(decimal_den(y2));
    }
    lemma_least_length(n, 1, c, y);
}

/// The exact decimal of a number that is not zero is not zero.
proof fn lemma_exact_is_something(n: Number)
    requires
        n.finite(),
        n.magnitude() != 0,
    ensures
        exact_digits(n) >= 1,
{
    crate::number::lemma_below_is_the_order_of_values(n, n);
    let m = n.significand();
    let e = n.exponent();
    assert(m >= 1) by {
        if m == 0 {
            assert(0 * power(2, (e + 1074) as nat) == 0) by (nonlinear_arith);
        }
    }
    if e < 0 {
        lemma_power_positive(5, (-e) as nat);
        assert(m * power(5, (-e) as nat) >= 1) by (nonlinear_arith)
            requires
                m >= 1,
                power(5, (-e) as nat) >= 1,
        ;
    } else {
        lemma_power_positive(2, e as nat);
        assert(m * power(2, e as nat) >= 1) by (nonlinear_arith)
            requires
                m >= 1,
                power(2, e as nat) >= 1,
        ;
    }
}

/// From a length below which no decimal reads as the number, the least
/// length is one below which none does.
proof fn lemma_least_length(n: Number, k: nat, c: nat, y: int)
    requires
        n.finite(),
        exact_digits(n) >= 1,
        1 <= k <= length(exact_digits(n)),
        forall|c2: nat, y2: int| c2 < power(10, (k - 1) as nat) ==> !#[trigger] reads_as(c2, y2, n),
        c < power(10, (least_length(n, k) - 1) as nat),
    ensures
        !reads_as(c, y, n),
    decreases length(exact_digits(n)) - k,
{
    if k >= length(exact_digits(n)) || found(n, k) {
    } else {
        assert forall|c2: nat, y2: int| c2 < power(10, k) implies !#[trigger] reads_as(
            c2,
            y2,
            n,
        ) by {
            lemma_none_of_length(n, k, c2, y2);
        }
        lemma_least_length(n, k + 1, c, y);
    }
}

/// The digits of the shortest decimal that reads as the number. Where
/// both decimals of the shortest length that enclose the number read as
/// it, it is the nearer one, and the upper one of two equally near.
pub open spec fn shortest_digits(n: Number) -> nat {
    let k = shortest_length(n);
    let big = exact_digits(n);
    let rest = power(10, (length(big) - k) as nat);
    let low = lower(n, k);
    let x = place(n, k);
    if reads_as(low + 1, x, n) && (!reads_as(low, x, n) || 2 * (big % rest) >= rest) {
        low + 1
    } else {
        low
    }
}

/// The exponent of ten at which the digits of the shortest decimal stand.
pub open spec fn shortest_place(n: Number) -> int {
    place(n, shortest_length(n))
}

/// The shortest length is a length of the exact decimal, and with it a
/// decimal that encloses the number reads as the number.
proof fn lemma_least_is_found(n: Number, k: nat)
    requires
        n.finite(),
        exact_digits(n) >= 1,
        1 <= k <= length(exact_digits(n)),
    ensures
        k <= least_length(n, k) <= length(exact_digits(n)),
        found(n, least_length(n, k)),
    decreases length(exact_digits(n)) - k,
{
    let big = exact_digits(n);
    if k >= length(big) {
        lemma_exact_reads(n);
        assert(power(10, 0) == 1);
        assert(big / 1 == big);
        assert(lower(n, k) == big);
    } else if !found(n, k) {
        lemma_least_is_found(n, k + 1);
    }
}

/// The shortest decimal reads as the number.
pub proof fn lemma_shortest_reads(n: Number)
    requires
        n.finite(),
        n.magnitude() != 0,
    ensures
        reads_as(shortest_digits(n), shortest_place(n), n),
        shortest_digits(n) >= 1,
{
    lemma_exact_is_something(n);
    lemma_length(exact_digits(n));
    lemma_least_is_found(n, 1);
    lemma_enclosed(n, shortest_length(n));
    lemma_power_positive(10, (shortest_length(n) - 1) as nat);
}

/// A text without the zeros at its end.
pub open spec fn stripped(s: Seq<char>) -> Seq<char>
    decreases s.len(),
{
    if s.len() > 0 && s.last() == '0' {
        stripped(s.drop_last())
    } else {
        s
    }
}

/// The decimal `d * 10^x` written out in full: the whole part, and behind
/// a point the places that are not zero at the end. Where every place is
/// zero there is no point.
pub open spec fn expansion(d: nat, x: int) -> Seq<char> {
    if x >= 0 {
        decimal(d * power(10, x as nat))
    } else {
        let t = power(10, (-x) as nat);
        if d % t == 0 {
            decimal(d / t)
        } else {
            decimal(d / t) + seq!['.'] + stripped(zero_padded(d % t, (-x) as nat))
        }
    }
}

/// The shortest text of a number: `NaN` for what is not a number, and else
/// behind its sign `inf` for infinity, `0` for zero, and for every other
/// number the shortest decimal that reads as it, written out in full.
pub open spec fn shortest_text(n: Number) -> Seq<char> {
    if n.nan() {
        "NaN"@
    } else if n.infinite() {
        sign_text(n) + "inf"@
    } else if n.magnitude() == 0 {
        sign_text(n) + "0"@
    } else {
        sign_text(n) + expansion(shortest_digits(n), shortest_place(n))
    }
}

/// The exact decimal of a finite number is no longer than 400 digits and
/// its places.
proof fn lemma_exact_length(n: Number)
    requires
        n.finite(),
        exact_digits(n) >= 1,
    ensures
        length(exact_digits(n)) <= exact_places(n) + 400,
{
    let m = n.significand();
    let e = n.exponent();
    let big = exact_digits(n);
    let p = exact_places(n);
    lemma_powers_of_two();
    assert(m < power(2, 53));
    lemma_length(big);
    if e >= 0 {
        lemma_scale_bounds(m, 53, e as nat);
        lemma_power_grows((53 + e) as nat, 1200);
        lemma_ten_beats_eight(400);
        assert(big < power(10, 400));
    } else {
        lemma_ten_is_two_times_five(p);
        lemma_power_positive(2, p);
        lemma_power_positive(5, p);
        assert(power(5, p) <= power(10, p)) by (nonlinear_arith)
            requires
                power(10, p) == power(2, p) * power(5, p),
                power(2, p) >= 1,
                power(5, p) >= 1,
        ;
        lemma_power_grows(53, 1200);
        lemma_ten_beats_eight(400);
        lemma_power_adds(10, 400, p);
        assert(big < power(10, 400) * power(10, p)) by (nonlinear_arith)
            requires
                big == m * power(5, p),
                m < power(10, 400),
                power(5, p) <= power(10, p),
                power(5, p) >= 1,
        ;
    }
    if length(big) > p + 400 {
        lemma_power_grows_ten(p + 400, (length(big) - 1) as nat);
    }
}

/// The digits of the exact decimal of a significand at an exponent, and
/// the places of the decimal.
fn exact_decimal(m: u64, e: i32) -> (r: (Vec<u8>, u32))
    requires
        -1074 <= e <= 971,
    ensures
        normal(r.0@),
        e < 0 ==> digits_value(r.0@) == m * power(5, (-e) as nat) && r.1 == -e,
        e >= 0 ==> digits_value(r.0@) == m * power(2, e as nat) && r.1 == 0,
{
    let mut d: Vec<u8> = digits_of(m);
    if e >= 0 {
        let mut i: i32 = 0;
        assert(m * power(2, 0) == m) by (nonlinear_arith)
            requires
                power(2, 0) == 1,
        ;
        while i < e
            invariant
                0 <= i <= e,
                normal(d@),
                digits_value(d@) == m * power(2, i as nat),
            decreases e - i,
        {
            proof {
                let p = power(2, i as nat);
                assert(power(2, (i + 1) as nat) == 2 * p);
                assert(2 * (m * p) == m * (2 * p)) by (nonlinear_arith);
            }
            d = doubled(&d);
            i = i + 1;
        }
        (d, 0)
    } else {
        let mut i: i32 = 0;
        assert(m * power(5, 0) == m) by (nonlinear_arith)
            requires
                power(5, 0) == 1,
        ;
        while i < -e
            invariant
                0 <= i <= -e,
                -1074 <= e < 0,
                normal(d@),
                digits_value(d@) == m * power(5, i as nat),
            decreases -e - i,
        {
            proof {
                let p = power(5, i as nat);
                assert(power(5, (i + 1) as nat) == 5 * p);
                assert(5 * (m * p) == m * (5 * p)) by (nonlinear_arith);
            }
            d = times_digit(&d, 5);
            i = i + 1;
        }
        (d, (-e) as u32)
    }
}

/// The digits from a place on.
fn top_digits(d: &Vec<u8>, from: usize) -> (r: Vec<u8>)
    requires
        from <= d.len(),
    ensures
        r@ == d@.skip(from as int),
{
    let mut r: Vec<u8> = Vec::new();
    let mut i: usize = from;
    while i < d.len()
        invariant
            from <= i <= d.len(),
            r@ == d@.subrange(from as int, i as int),
        decreases d.len() - i,
    {
        r.push(d[i]);
        i = i + 1;
        assert(r@ =~= d@.subrange(from as int, i as int));
    }
    assert(d@.subrange(from as int, d.len() as int) =~= d@.skip(from as int));
    r
}

/// The digits of one more than the number.
fn incremented(d: &Vec<u8>) -> (r: Vec<u8>)
    requires
        are_digits(d@),
        d.len() >= 1,
    ensures
        are_digits(r@),
        digits_value(r@) == digits_value(d@) + 1,
        r.len() >= 1,
        normal(d@) ==> normal(r@),
{
    let mut r: Vec<u8> = Vec::new();
    let mut carry: u8 = 1;
    let mut i: usize = 0;
    assert(d@.take(0) =~= Seq::<u8>::empty());
    assert(power(10, 0) == 1);
    assert(1 * power(10, 0) == 1) by (nonlinear_arith)
        requires
            power(10, 0) == 1,
    ;
    while i < d.len()
        invariant
            i <= d.len(),
            are_digits(d@),
            r.len() == i,
            carry <= 1,
            are_digits(r@),
            digits_value(r@) + carry * power(10, i as nat) == digits_value(d@.take(i as int)) + 1,
            i >= 1 ==> r[i - 1] + 10 * carry >= d[i - 1],
        decreases d.len() - i,
    {
        let ghost before = r@;
        let ghost p = power(10, i as nat);
        let x: u8 = d[i] + carry;
        r.push(x % 10);
        proof {
            lemma_digits_value_push(before, x % 10);
            lemma_digits_value_push(d@.take(i as int), d[i as int]);
            assert(d@.take(i + 1) =~= d@.take(i as int).push(d[i as int]));
            assert(power(10, (i + 1) as nat) == 10 * p);
            assert((x % 10) * p + (x / 10) * (10 * p) == carry * p + d[i as int] * p)
                by (nonlinear_arith)
                requires
                    x == 10 * (x / 10) + x % 10,
                    x == d[i as int] + carry,
            ;
        }
        carry = x / 10;
        i = i + 1;
    }
    assert(d@.take(d.len() as int) =~= d@);
    if carry > 0 {
        let ghost before = r@;
        r.push(carry);
        proof {
            lemma_digits_value_push(before, carry);
        }
    } else {
        assert(0 * power(10, d.len() as nat) == 0) by (nonlinear_arith);
    }
    r
}

/// Whether the digits at the exponent read as the number.
fn reads(digits: &Vec<u8>, x: i128, n: Number) -> (r: bool)
    requires
        are_digits(digits@),
        -0x100_0000_0000_0000_0000_0000_0000_0000 <= x <= 1000,
        n.finite(),
    ensures
        r == reads_as(digits_value(digits@), x as int, n),
{
    let ghost goal = nearest_magnitude(
        decimal_num(digits_value(digits@), x as int),
        decimal_den(x as int),
    );
    let found: Number = nearest_decimal(false, digits, x);
    let magnitude: u64 = if n.is_negative() {
        n.to_bits() - 0x8000_0000_0000_0000
    } else {
        n.to_bits()
    };
    proof {
        lemma_power_positive(10, (-x) as nat);
        crate::nearest::lemma_floor_exists(
            decimal_num(digits_value(digits@), x as int),
            decimal_den(x as int),
        );
        assert(goal <= INFINITY_MAGNITUDE);
    }
    found.to_bits() == magnitude
}

/// The digits and the exponent of the shortest decimal that reads as a
/// finite number that is not zero.
fn shortest_decimal(n: Number) -> (r: (Vec<u8>, i128))
    requires
        n.finite(),
        n.magnitude() != 0,
    ensures
        normal(r.0@),
        digits_value(r.0@) == shortest_digits(n),
        r.1 == shortest_place(n),
        -1074 <= r.1 <= 400,
{
    let (m, e) = n.parts().unwrap();
    let (big, places) = exact_decimal(m, e);
    let l: usize = big.len();
    proof {
        lemma_exact_is_something(n);
        lemma_exact_length(n);
        lemma_digits_are_decimal(big@);
        assert(tail_of(big@).len() == big@.len());
        assert(length(exact_digits(n)) == l);
        assert(places == exact_places(n));
    }
    let mut k: usize = 1;
    loop
        invariant
            1 <= k <= l,
            n.finite(),
            exact_digits(n) >= 1,
            normal(big@),
            digits_value(big@) == exact_digits(n),
            l == big.len(),
            l == length(exact_digits(n)),
            places == exact_places(n),
            l <= places + 400,
            places <= 1074,
            least_length(n, k as nat) == shortest_length(n),
        decreases l - k,
    {
        let low: Vec<u8> = top_digits(&big, l - k);
        let x: i128 = (l - k) as i128 - places as i128;
        proof {
            lemma_digits_quotient(big@, (l - k) as nat);
            lemma_enclosed(n, k as nat);
            assert(digits_value(low@) == lower(n, k as nat));
            assert(x == place(n, k as nat));
            assert forall|i: int| 0 <= i < low.len() implies low[i] < 10 by {
                assert(low[i] == big[l - k + i]);
            }
            assert(low.len() == k);
            assert(low@.last() == big@.last());
            assert(normal(low@));
        }
        let high: Vec<u8> = incremented(&low);
        let low_reads: bool = reads(&low, x, n);
        let high_reads: bool = reads(&high, x, n);
        if low_reads || high_reads || k == l {
            let (half, _) = trailing(&big, (l - k) as u128);
            if high_reads && (!low_reads || half) {
                return (high, x);
            } else {
                return (low, x);
            }
        }
        k = k + 1;
    }
}

/// Digits in a row as many as they are, with their zeros in front, are the
/// digits from the top down.
proof fn lemma_zero_padded_digits(f: Seq<u8>)
    requires
        are_digits(f),
    ensures
        zero_padded(digits_value(f), f.len()) == tail_of(f),
    decreases f.len(),
{
    if f.len() > 0 {
        let rest = f.drop_first();
        lemma_zero_padded_digits(rest);
        assert(tail_of(f) =~= tail_of(rest).push(digit(f[0] as nat)));
    } else {
        assert(tail_of(f) =~= Seq::<char>::empty());
    }
}

/// Without the zeros at the end, the digits from the top down are those
/// from the top down to the lowest digit that is not zero.
proof fn lemma_stripped_digits(f: Seq<u8>, zeros: nat)
    requires
        are_digits(f),
        zeros < f.len(),
        forall|i: int| 0 <= i < zeros ==> f[i] == 0,
        f[zeros as int] != 0,
    ensures
        stripped(tail_of(f)) == tail_of(f.skip(zeros as int)),
    decreases zeros,
{
    let text = tail_of(f);
    assert(text.last() == digit(f[0] as nat));
    if zeros == 0 {
        assert(f.skip(0) =~= f);
        assert(digit(f[0] as nat) != '0');
    } else {
        let rest = f.drop_first();
        assert(text.drop_last() =~= tail_of(rest));
        assert(rest.skip(zeros - 1) =~= f.skip(zeros as int));
        lemma_stripped_digits(rest, (zeros - 1) as nat);
    }
}

/// Times a power of ten, a numeral gets as many zeros at its end.
proof fn lemma_decimal_times_ten(d: nat, x: nat)
    requires
        d >= 1,
    ensures
        decimal(d * power(10, x)) == decimal(d) + repeat('0', x),
    decreases x,
{
    if x == 0 {
        assert(power(10, 0) == 1);
        assert(d * 1 == d);
        assert(decimal(d) + repeat('0', 0) =~= decimal(d));
    } else {
        lemma_decimal_times_ten(d, (x - 1) as nat);
        let less = d * power(10, (x - 1) as nat);
        lemma_power_positive(10, (x - 1) as nat);
        assert(d * power(10, x) == 10 * less) by (nonlinear_arith)
            requires
                power(10, x) == 10 * power(10, (x - 1) as nat),
                less == d * power(10, (x - 1) as nat),
        ;
        assert(less >= 1) by (nonlinear_arith)
            requires
                less == d * power(10, (x - 1) as nat),
                d >= 1,
                power(10, (x - 1) as nat) >= 1,
        ;
        assert((10 * less) / 10 == less && (10 * less) % 10 == 0);
        assert(decimal(10 * less) == decimal(less).push('0'));
        assert(decimal(less).push('0') =~= decimal(d) + repeat('0', x));
    }
}

/// The number of zeros that the digits begin with, from the lowest digit
/// on and below a place.
fn zeros_below(d: &Vec<u8>, p: usize) -> (zeros: usize)
    requires
        p <= d.len(),
    ensures
        zeros <= p,
        forall|i: int| 0 <= i < zeros ==> d[i] == 0,
        zeros < p ==> d[zeros as int] != 0,
{
    let mut i: usize = 0;
    while i < p
        invariant
            i <= p <= d.len(),
            forall|k: int| 0 <= k < i ==> d[k] == 0,
        decreases p - i,
    {
        if d[i] != 0 {
            return i;
        }
        i = i + 1;
    }
    i
}

/// The digits from one place up to another.
fn middle_digits(d: &Vec<u8>, from: usize, to: usize) -> (r: Vec<u8>)
    requires
        from <= to <= d.len(),
    ensures
        r@ == d@.subrange(from as int, to as int),
{
    let mut r: Vec<u8> = Vec::new();
    let mut i: usize = from;
    while i < to
        invariant
            from <= i <= to <= d.len(),
            r@ == d@.subrange(from as int, i as int),
        decreases to - i,
    {
        r.push(d[i]);
        i = i + 1;
        assert(r@ =~= d@.subrange(from as int, i as int));
    }
    r
}

/// Digits with zeros on top until they are `p` digits or more.
fn padded(d: &Vec<u8>, p: usize) -> (r: Vec<u8>)
    requires
        are_digits(d@),
    ensures
        are_digits(r@),
        digits_value(r@) == digits_value(d@),
        r.len() >= p,
        r.len() >= d.len(),
        d.len() >= p ==> r@ == d@,
        d.len() < p ==> r.len() == p,
{
    let mut r: Vec<u8> = middle_digits(d, 0, d.len());
    assert(d@.subrange(0, d.len() as int) =~= d@);
    while r.len() < p
        invariant
            are_digits(r@),
            digits_value(r@) == digits_value(d@),
            r.len() >= d.len(),
            d.len() >= p ==> r@ == d@,
            d.len() < p ==> r.len() <= p,
        decreases p - r.len(),
    {
        let ghost before = r@;
        r.push(0);
        proof {
            lemma_digits_value_push(before, 0);
            assert(0 * power(10, before.len()) == 0) by (nonlinear_arith);
        }
    }
    r
}

/// Appends the decimal of the digits at the exponent, written out in full.
fn push_expansion(out: &mut String, digits: &Vec<u8>, x: i128)
    requires
        normal(digits@),
        digits_value(digits@) >= 1,
        -1074 <= x <= 400,
    ensures
        final(out)@ == old(out)@ + expansion(digits_value(digits@), x as int),
{
    let ghost d = digits_value(digits@);
    proof {
        lemma_digits_are_decimal(digits@);
        reveal_strlit("0");
        reveal_strlit(".");
    }
    if x >= 0 {
        push_digits(out, digits);
        push_copies(out, "0", x as u128);
        proof {
            lemma_decimal_times_ten(d, x as nat);
            assert(out@ =~= old(out)@ + (decimal(d) + repeat('0', x as nat)));
        }
        return ;
    }
    let p: usize = (-x) as usize;
    let ghost t = power(10, p as nat);
    let all: Vec<u8> = padded(digits, p);
    proof {
        lemma_digits_quotient(all@, p as nat);
        assert(d / t == digits_value(all@.skip(p as int)));
        assert(d % t == digits_value(all@.take(p as int)));
    }
    if all.len() == p {
        proof {
            assert(all@.skip(p as int) =~= Seq::<u8>::empty());
            assert(d / t == 0);
            assert(decimal(0) =~= seq!['0']);
        }
        out.append("0");
    } else {
        let whole: Vec<u8> = top_digits(&all, p);
        proof {
            assert(all@ == digits@);
            assert(whole@.last() == digits@.last());
            assert forall|i: int| 0 <= i < whole.len() implies whole[i] < 10 by {
                assert(whole[i] == digits[p + i]);
            }
            assert(normal(whole@));
            lemma_digits_are_decimal(whole@);
        }
        push_digits(out, &whole);
    }
    let ghost wrote = out@;
    assert(wrote =~= old(out)@ + decimal(d / t));
    let zeros: usize = zeros_below(&all, p);
    let ghost below = all@.take(p as int);
    proof {
        lemma_digits_of_nothing(below);
        assert forall|i: int| 0 <= i < below.len() implies below[i] < 10 by {
            assert(below[i] == all[i]);
        }
    }
    if zeros == p {
        proof {
            assert forall|i: int| 0 <= i < below.len() implies below[i] == 0 by {
                assert(below[i] == all[i]);
            }
        }
        return ;
    }
    let places: Vec<u8> = middle_digits(&all, zeros, p);
    proof {
        assert(below[zeros as int] == all[zeros as int]);
        assert(d % t != 0);
        lemma_zero_padded_digits(below);
        assert forall|i: int| 0 <= i < zeros implies below[i] == 0 by {
            assert(below[i] == all[i]);
        }
        lemma_stripped_digits(below, zeros as nat);
        assert(places@ =~= below.skip(zeros as int));
        assert forall|i: int| 0 <= i < places.len() implies places[i] < 10 by {
            assert(places[i] == all[zeros + i]);
        }
    }
    out.append(".");
    push_digits(out, &places);
    assert(out@ =~= old(out)@ + (decimal(d / t) + seq!['.'] + stripped(
        zero_padded(d % t, p as nat),
    )));
}

/// Appends the shortest text of a number.
pub fn push_shortest(out: &mut String, n: Number)
    ensures
        final(out)@ == old(out)@ + shortest_text(n),
{
    proof {
        reveal_strlit("NaN");
        reveal_strlit("inf");
        reveal_strlit("-");
        reveal_strlit("0");
    }
    if n.is_nan() {
        out.append("NaN");
        return ;
    }
    if n.is_negative() {
        out.append("-");
    }
    let ghost signed = out@;
    assert(signed =~= old(out)@ + sign_text(n));
    if n.is_infinite() {
        out.append("inf");
        assert(out@ =~= old(out)@ + (sign_text(n) + "inf"@));
        return ;
    }
    if n.to_bits() == 0 || n.to_bits() == 0x8000_0000_0000_0000 {
        out.append("0");
        assert(out@ =~= old(out)@ + (sign_text(n) + "0"@));
        return ;
    }
    let (digits, x) = shortest_decimal(n);
    proof {
        lemma_shortest_reads(n);
    }
    push_expansion(out, &digits, x);
    assert(out@ =~= old(out)@ + (sign_text(n) + expansion(shortest_digits(n), shortest_place(n))));
}

/// The shortest text of a number.
pub fn shortest(n: Number) -> (text: String)
    ensures
        text@ == shortest_text(n),
{
    let mut text = String::new();
    push_shortest(&mut text, n);
    assert(text@ =~= shortest_text(n));
    text
}

} // verus!
