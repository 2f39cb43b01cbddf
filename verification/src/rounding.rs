//! Whole-number arithmetic of rounding: powers, quotients rounded to the
//! nearest whole, and division by powers of two.

use vstd::arithmetic::div_mod::{
    lemma_breakdown, lemma_div_denominator, lemma_div_multiples_vanish_quotient,
    lemma_truncate_middle,
};
use vstd::prelude::*;

verus! {

/// `base` to the power of `e`.
pub open spec fn power(base: nat, e: nat) -> nat
    decreases e,
{
    if e == 0 {
        1
    } else {
        base * power(base, (e - 1) as nat)
    }
}

/// `num / den` rounded to the nearest integer, a half rounded up.
pub open spec fn round_half_up(num: nat, den: nat) -> nat
    recommends
        den > 0,
{
    num / den + if 2 * (num % den) >= den {
        1nat
    } else {
        0nat
    }
}

/// `num / den` rounded to the nearest integer, a half rounded to the even
/// neighbour.
pub open spec fn round_half_even(num: nat, den: nat) -> nat
    recommends
        den > 0,
{
    let q = num / den;
    let r = num % den;
    if 2 * r > den || (2 * r == den && q % 2 == 1) {
        q + 1
    } else {
        q
    }
}

/// A positive base has positive powers.
pub proof fn lemma_power_positive(base: nat, e: nat)
    requires
        base > 0,
    ensures
        power(base, e) > 0,
    decreases e,
{
    if e > 0 {
        lemma_power_positive(base, (e - 1) as nat);
        assert(base * power(base, (e - 1) as nat) > 0) by (nonlinear_arith)
            requires
                base > 0,
                power(base, (e - 1) as nat) > 0,
        ;
    }
}

/// The power of a sum is the product of the powers.
pub proof fn lemma_power_adds(base: nat, a: nat, b: nat)
    ensures
        power(base, a + b) == power(base, a) * power(base, b),
    decreases a,
{
    if a == 0 {
        assert(power(base, 0) == 1);
        assert(1 * power(base, b) == power(base, b)) by (nonlinear_arith);
    } else {
        lemma_power_adds(base, (a - 1) as nat, b);
        let x = power(base, (a - 1) as nat);
        let y = power(base, b);
        assert(power(base, a) == base * x);
        assert(power(base, a + b) == base * power(base, (a - 1 + b) as nat));
        assert(base * (x * y) == (base * x) * y) by (nonlinear_arith);
    }
}

/// A greater exponent gives no smaller power of two.
pub proof fn lemma_power_grows(a: nat, b: nat)
    requires
        a <= b,
    ensures
        power(2, a) <= power(2, b),
    decreases b - a,
{
    if a < b {
        lemma_power_grows(a, (b - 1) as nat);
        lemma_power_positive(2, (b - 1) as nat);
    }
}

/// Two to the power of 52, of 53 and of 64.
pub proof fn lemma_powers_of_two()
    ensures
        power(2, 52) == 0x10_0000_0000_0000,
        power(2, 53) == 0x20_0000_0000_0000,
        power(2, 64) == 0x1_0000_0000_0000_0000,
{
    assert(power(2, 13) == 0x2000) by {
        reveal_with_fuel(power, 14);
    }
    assert(power(2, 12) == 0x1000) by {
        reveal_with_fuel(power, 13);
    }
    lemma_power_adds(2, 13, 13);
    assert(power(2, 26) == 0x2000 * 0x2000);
    lemma_power_adds(2, 26, 26);
    assert(power(2, 52) == 0x400_0000 * 0x400_0000);
    assert(power(2, 53) == 2 * power(2, 52));
    lemma_power_adds(2, 52, 12);
    assert(power(2, 64) == 0x10_0000_0000_0000 * 0x1000);
}

/// A greater exponent gives no smaller power of ten.
pub proof fn lemma_power_grows_ten(a: nat, b: nat)
    requires
        a <= b,
    ensures
        power(10, a) <= power(10, b),
    decreases b - a,
{
    if a < b {
        lemma_power_grows_ten(a, (b - 1) as nat);
        lemma_power_positive(10, (b - 1) as nat);
    }
}

/// Ten to a power is no less than two to three times the power.
pub proof fn lemma_ten_beats_eight(k: nat)
    ensures
        power(10, k) >= power(2, 3 * k),
    decreases k,
{
    if k == 0 {
        assert(power(10, 0) == 1 && power(2, 0) == 1);
    } else {
        lemma_ten_beats_eight((k - 1) as nat);
        let t = power(2, (3 * k - 3) as nat);
        assert(power(2, (3 * k) as nat) == 2 * power(2, (3 * k - 1) as nat));
        assert(power(2, (3 * k - 1) as nat) == 2 * power(2, (3 * k - 2) as nat));
        assert(power(2, (3 * k - 2) as nat) == 2 * t);
        assert(power(10, k) == 10 * power(10, (k - 1) as nat));
    }
}

/// Ten to a power is two to the power times five to the power.
pub proof fn lemma_ten_is_two_times_five(k: nat)
    ensures
        power(10, k) == power(2, k) * power(5, k),
    decreases k,
{
    if k == 0 {
        assert(power(10, 0) == 1 && power(2, 0) == 1 && power(5, 0) == 1);
    } else {
        lemma_ten_is_two_times_five((k - 1) as nat);
        let a = power(2, (k - 1) as nat);
        let b = power(5, (k - 1) as nat);
        assert(power(10, k) == 10 * power(10, (k - 1) as nat));
        assert(power(2, k) == 2 * a);
        assert(power(5, k) == 5 * b);
        assert(10 * (a * b) == (2 * a) * (5 * b)) by (nonlinear_arith);
    }
}

/// Times a power of two, bounds by powers of two move up by the exponent.
pub proof fn lemma_scale_bounds(n: nat, a: nat, b: nat)
    ensures
        n < power(2, a) ==> n * power(2, b) < power(2, a + b),
        n >= power(2, a) ==> n * power(2, b) >= power(2, a + b),
{
    lemma_power_adds(2, a, b);
    lemma_power_positive(2, b);
    let x = power(2, a);
    let y = power(2, b);
    assert(n < x ==> n * y < x * y) by (nonlinear_arith)
        requires
            y > 0,
    ;
    assert(n >= x ==> n * y >= x * y) by (nonlinear_arith)
        requires
            y > 0,
    ;
}

/// Divided by a power of two, bounds by powers of two move down by the
/// exponent.
pub proof fn lemma_shift_bounds(n: nat, a: nat, b: nat)
    requires
        b <= a,
    ensures
        n < power(2, a) ==> n / power(2, b) < power(2, (a - b) as nat),
        n >= power(2, a) ==> n / power(2, b) >= power(2, (a - b) as nat),
{
    lemma_power_adds(2, (a - b) as nat, b);
    lemma_power_positive(2, b);
    let x = power(2, (a - b) as nat);
    let y = power(2, b);
    let q = n / y;
    assert(n == q * y + n % y && n % y < y) by (nonlinear_arith)
        requires
            y > 0,
            q == n / y,
    ;
    assert(n < x * y ==> q < x) by (nonlinear_arith)
        requires
            n == q * y + n % y,
            y > 0,
    ;
    assert(n >= x * y ==> q >= x) by (nonlinear_arith)
        requires
            n == q * y + n % y,
            n % y < y,
            y > 0,
    ;
}

/// A factor that numerator and denominator share changes no rounded
/// quotient.
pub proof fn lemma_rounding_cancels(num: nat, den: nat, c: nat)
    requires
        den > 0,
        c > 0,
    ensures
        (num * c) / (den * c) == num / den,
        (num * c) % (den * c) == (num % den) * c,
        round_half_even(num * c, den * c) == round_half_even(num, den),
        round_half_up(num * c, den * c) == round_half_up(num, den),
{
    lemma_div_multiples_vanish_quotient(c as int, num as int, den as int);
    lemma_truncate_middle(num as int, c as int, den as int);
    assert(c * num == num * c && c * den == den * c) by (nonlinear_arith);
    let r = num % den;
    assert(c * r == r * c) by (nonlinear_arith);
    assert((2 * (r * c) > den * c) == (2 * r > den) && (2 * (r * c) == den * c) == (2 * r == den)
        && (2 * (r * c) >= den * c) == (2 * r >= den)) by (nonlinear_arith)
        requires
            c > 0,
    ;
}

/// Between two multiples of a divisor, the quotient lies between the
/// factors.
pub proof fn lemma_quotient_between(x: nat, d: nat, low: nat, high: nat)
    requires
        d > 0,
        low * d <= x < high * d,
    ensures
        low <= x / d < high,
{
    let q = x / d;
    assert(x == q * d + x % d && x % d < d) by (nonlinear_arith)
        requires
            d > 0,
            q == x / d,
    ;
    assert(low <= q) by (nonlinear_arith)
        requires
            low * d <= q * d + x % d,
            x % d < d,
            d > 0,
    ;
    assert(q < high) by (nonlinear_arith)
        requires
            q * d + x % d < high * d,
            d > 0,
    ;
}

/// Equal fractions have equal rounded quotients.
pub proof fn lemma_equal_fractions(a: nat, b: nat, c: nat, d: nat)
    requires
        b > 0,
        d > 0,
        a * d == c * b,
    ensures
        a / b == c / d,
        a % b == 0 <==> c % d == 0,
        round_half_even(a, b) == round_half_even(c, d),
        round_half_up(a, b) == round_half_up(c, d),
{
    lemma_rounding_cancels(a, b, d);
    lemma_rounding_cancels(c, d, b);
    assert(b * d == d * b) by (nonlinear_arith);
    assert(((a % b) * d == 0) == (a % b == 0) && ((c % d) * b == 0) == (c % d == 0))
        by (nonlinear_arith)
        requires
            b > 0,
            d > 0,
    ;
}

/// `num / den` rounded half to even.
pub fn rounded_half_even(num: u128, den: u128) -> (r: u128)
    requires
        den > 0,
    ensures
        r == round_half_even(num as nat, den as nat),
{
    let q: u128 = num / den;
    let r: u128 = num % den;
    if r > den - r || (r == den - r && q % 2 == 1) {
        assert(q <= num / 2) by (nonlinear_arith)
            requires
                den >= 2,
                q == num / den,
        ;
        q + 1
    } else {
        q
    }
}

/// Of two equal powers of two times two numbers, the order is that of the
/// numbers.
pub proof fn lemma_scaled_order(a: nat, b: nat, k: nat)
    ensures
        (a * power(2, k) <= b * power(2, k)) == (a <= b),
        (a * power(2, k) < b * power(2, k)) == (a < b),
{
    lemma_power_positive(2, k);
    let p = power(2, k);
    assert((a * p <= b * p) == (a <= b) && (a * p < b * p) == (a < b)) by (nonlinear_arith)
        requires
            p > 0,
    ;
}

/// The remainder by the next power of two: the bit at that power, and the
/// remainder by this one.
proof fn lemma_remainder_step(num: nat, i: nat)
    ensures
        power(2, i) > 0,
        power(2, i + 1) == 2 * power(2, i),
        num / power(2, i + 1) == (num / power(2, i)) / 2,
        num % power(2, i + 1) == power(2, i) * ((num / power(2, i)) % 2) + num % power(2, i),
        num % power(2, i) < power(2, i),
{
    lemma_power_positive(2, i);
    let d = power(2, i) as int;
    lemma_div_denominator(num as int, d, 2);
    lemma_breakdown(num as int, d, 2);
    assert(d * 2 == power(2, i + 1));
    assert(num as int % d < d) by (nonlinear_arith)
        requires
            d > 0,
            num >= 0,
    ;
}

/// Division by a power of two, with what rounding needs to know of the
/// remainder: the quotient `num / 2^k`, whether the remainder reaches half
/// of `2^k`, and whether it has anything beyond that half.
pub(crate) fn shifted(num: u128, k: u32) -> (parts: (u128, bool, bool))
    ensures
        parts.0 == num as nat / power(2, k as nat),
        parts.1 == (2 * (num as nat % power(2, k as nat)) >= power(2, k as nat)),
        parts.2 == (parts.1 && 2 * (num as nat % power(2, k as nat)) > power(2, k as nat)),
        parts.1 ==> parts.0 <= u128::MAX / 2,
{
    let mut q: u128 = num;
    let mut half: bool = false;
    let mut sticky: bool = false;
    let mut i: u32 = 0;
    assert(power(2, 0) == 1);
    while i < k
        invariant
            i <= k,
            q == num as nat / power(2, i as nat),
            i == 0 ==> !half && !sticky,
            i >= 1 ==> q <= u128::MAX / 2,
            i >= 1 ==> sticky == (num as nat % power(2, (i - 1) as nat) != 0),
            i >= 1 ==> half == ((num as nat / power(2, (i - 1) as nat)) % 2 == 1),
        decreases k - i,
    {
        proof {
            lemma_remainder_step(num as nat, i as nat);
            if i >= 1 {
                lemma_remainder_step(num as nat, (i - 1) as nat);
                let p = power(2, (i - 1) as nat);
                let h = (num as nat / p) % 2;
                assert(num as nat % power(2, i as nat) == p * h + num as nat % p);
                assert(p * h == if h == 1 {
                    p
                } else {
                    0
                }) by (nonlinear_arith)
                    requires
                        h == 0 || h == 1,
                ;
            } else {
                assert(power(2, 0) == 1);
                assert(num as nat % 1 == 0);
            }
        }
        sticky = half || sticky;
        half = q % 2 == 1;
        q = q / 2;
        i = i + 1;
    }
    proof {
        let d = power(2, k as nat);
        if k >= 1 {
            lemma_remainder_step(num as nat, (k - 1) as nat);
            let p = power(2, (k - 1) as nat);
            let h = (num as nat / p) % 2;
            assert(num as nat % d == p * h + num as nat % p);
            assert(p * h == if h == 1 {
                p
            } else {
                0
            }) by (nonlinear_arith)
                requires
                    h == 0 || h == 1,
            ;
        } else {
            assert(d == 1);
            assert(num as nat % 1 == 0);
        }
    }
    (q, half, half && sticky)
}

/// `num / 2^k`, rounded half to even.
pub(crate) fn halved_to_even(num: u128, k: u32) -> (t: u128)
    ensures
        t == round_half_even(num as nat, power(2, k as nat)),
{
    let (q, half, beyond) = shifted(num, k);
    if half && (beyond || q % 2 == 1) {
        q + 1
    } else {
        q
    }
}

/// `num / 2^k`, rounded half up.
pub(crate) fn halved_up(num: u128, k: u32) -> (t: u128)
    ensures
        t == round_half_up(num as nat, power(2, k as nat)),
{
    let (q, half, _) = shifted(num, k);
    if half {
        q + 1
    } else {
        q
    }
}

} // verus!
