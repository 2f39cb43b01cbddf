//! Numbers as IEEE-754 binary64 bit patterns, and their order.

use crate::rounding::{
    halved_up, lemma_power_adds, lemma_power_positive, lemma_rounding_cancels, power,
    round_half_even, round_half_up, shifted,
};
use vstd::prelude::*;

verus! {

/// The count that a natural number comes down to: itself, or the greatest
/// count where it is beyond the counts.
pub open spec fn saturated(x: nat) -> u64 {
    if x > u64::MAX {
        u64::MAX
    } else {
        x as u64
    }
}

/// How often the smallest positive number, two to the power of -1074, goes
/// into one. Every finite number is a whole multiple of the smallest.
pub open spec fn units_per_one() -> nat {
    power(2, 1074)
}

/// The sign bit of a binary64 pattern.
pub const SIGN_BIT: u64 = 0x8000_0000_0000_0000;

/// The magnitude of infinity: exponent all ones, fraction zero.
pub const INFINITY_MAGNITUDE: u64 = 0x7ff0_0000_0000_0000;

/// The lowest bit of the exponent field: two to the power of 52.
pub const HIDDEN_BIT: u64 = 0x0010_0000_0000_0000;

/// A number, held as the 64 bits of its binary64 encoding.
///
/// The mathematical content of a pattern that is not a NaN is its
/// [`ordinal`](Number::ordinal): the encoding orders its values by
/// magnitude within each sign, so two numbers compare as their ordinals do.
#[derive(Clone, Copy, Debug)]
pub struct Number {
    pub bits: u64,
}

impl Number {
    /// The pattern without its sign bit.
    pub open spec fn magnitude(self) -> nat {
        if self.bits >= SIGN_BIT {
            (self.bits - SIGN_BIT) as nat
        } else {
            self.bits as nat
        }
    }

    /// Whether the sign bit is set.
    pub open spec fn negative(self) -> bool {
        self.bits >= SIGN_BIT
    }

    /// Not a number: exponent all ones and a fraction that is not zero.
    pub open spec fn nan(self) -> bool {
        self.magnitude() > INFINITY_MAGNITUDE
    }

    /// Plus or minus infinity: exponent all ones, fraction zero.
    pub open spec fn infinite(self) -> bool {
        self.magnitude() == INFINITY_MAGNITUDE
    }

    /// Neither infinite nor a NaN.
    pub open spec fn finite(self) -> bool {
        self.magnitude() < INFINITY_MAGNITUDE
    }

    /// The significand of a finite number: the fraction field, with the
    /// hidden bit on top unless the exponent field is zero.
    pub open spec fn significand(self) -> nat {
        if self.magnitude() < HIDDEN_BIT {
            self.magnitude()
        } else {
            self.magnitude() % (HIDDEN_BIT as nat) + HIDDEN_BIT as nat
        }
    }

    /// The binary exponent of a finite number: its absolute value is the
    /// significand times two to this power.
    pub open spec fn exponent(self) -> int {
        if self.magnitude() < HIDDEN_BIT {
            -1074
        } else {
            self.magnitude() / (HIDDEN_BIT as nat) - 1075
        }
    }

    /// The absolute value of a finite number, counted in the smallest
    /// positive number.
    pub open spec fn units(self) -> nat {
        self.significand() * power(2, (self.exponent() + 1074) as nat)
    }

    /// The value of a finite number, counted in the smallest positive
    /// number.
    pub open spec fn signed_units(self) -> int {
        if self.negative() {
            -(self.units() as int)
        } else {
            self.units() as int
        }
    }

    /// The number rounded down to a count. What is negative or a NaN
    /// counts as 0, what is beyond the counts as the greatest count.
    pub open spec fn floor_count(self) -> u64 {
        if self.nan() || self.negative() {
            0
        } else if self.infinite() {
            u64::MAX
        } else {
            saturated(self.units() / units_per_one())
        }
    }

    /// The number rounded to the nearest count, a half rounded up. What is
    /// negative or a NaN counts as 0, what is beyond the counts as the
    /// greatest count.
    pub open spec fn nearest_count(self) -> u64 {
        if self.nan() || self.negative() {
            0
        } else if self.infinite() {
            u64::MAX
        } else {
            saturated(round_half_up(self.units(), units_per_one()))
        }
    }

    /// The place of the number on the line of integers: the magnitude,
    /// negated under the sign bit. Both zeros have ordinal 0.
    pub open spec fn ordinal(self) -> int {
        if self.negative() {
            -(self.magnitude() as int)
        } else {
            self.magnitude() as int
        }
    }

    /// Strictly below: false as soon as either side is a NaN.
    pub open spec fn below(self, other: Number) -> bool {
        !self.nan() && !other.nan() && self.ordinal() < other.ordinal()
    }

    /// Strictly above: false as soon as either side is a NaN.
    pub open spec fn above(self, other: Number) -> bool {
        other.below(self)
    }

    pub fn from_bits(bits: u64) -> (n: Number)
        ensures
            n.bits == bits,
    {
        Number { bits }
    }

    pub fn to_bits(self) -> (bits: u64)
        ensures
            bits == self.bits,
    {
        self.bits
    }

    fn abs_bits(self) -> (m: u64)
        ensures
            m == self.magnitude(),
    {
        if self.bits >= SIGN_BIT {
            self.bits - SIGN_BIT
        } else {
            self.bits
        }
    }

    pub fn is_nan(self) -> (r: bool)
        ensures
            r == self.nan(),
    {
        self.abs_bits() > INFINITY_MAGNITUDE
    }

    pub fn is_infinite(self) -> (r: bool)
        ensures
            r == self.infinite(),
    {
        self.abs_bits() == INFINITY_MAGNITUDE
    }

    /// Significand and binary exponent of a finite number; none for
    /// infinity and NaN.
    pub fn parts(self) -> (p: Option<(u64, i32)>)
        ensures
            p is Some <==> self.finite(),
            p matches Some((m, e)) ==> {
                &&& m == self.significand()
                &&& e == self.exponent()
                &&& m < 2 * HIDDEN_BIT
                &&& -1074 <= e <= 971
            },
    {
        let m: u64 = self.abs_bits();
        if m >= INFINITY_MAGNITUDE {
            None
        } else if m < HIDDEN_BIT {
            Some((m, -1074))
        } else {
            Some((m % HIDDEN_BIT + HIDDEN_BIT, (m / HIDDEN_BIT) as i32 - 1075))
        }
    }

    /// The numerator of a finite number with an exponent that is not
    /// negative, as far as it matters for a count: beyond the counts it
    /// comes out as two to the power of 64.
    fn capped_numerator(m: u64, e: u32) -> (v: u128)
        ensures
            m * power(2, e as nat) <= u64::MAX ==> v == m * power(2, e as nat),
            m * power(2, e as nat) > u64::MAX ==> v == 0x1_0000_0000_0000_0000,
    {
        let mut v: u128 = m as u128;
        let mut i: u32 = 0;
        assert(m * power(2, 0) == m) by (nonlinear_arith)
            requires
                power(2, 0) == 1,
        ;
        while i < e
            invariant
                i <= e,
                m * power(2, i as nat) <= u64::MAX ==> v == m * power(2, i as nat),
                m * power(2, i as nat) > u64::MAX ==> v == 0x1_0000_0000_0000_0000,
            decreases e - i,
        {
            proof {
                let p = power(2, i as nat);
                assert(power(2, (i + 1) as nat) == 2 * p);
                assert(m * (2 * p) == 2 * (m * p)) by (nonlinear_arith);
            }
            v = if v >= 0x8000_0000_0000_0000 {
                0x1_0000_0000_0000_0000
            } else {
                v * 2
            };
            i = i + 1;
        }
        v
    }

    /// The number rounded down to a count.
    pub fn floor_u64(self) -> (c: u64)
        ensures
            c == self.floor_count(),
    {
        if self.is_nan() || self.is_negative() {
            return 0;
        }
        match self.parts() {
            None => u64::MAX,
            Some((m, e)) => {
                proof {
                    lemma_units_as_quotient(m as nat, e as int);
                }
                if e >= 0 {
                    let v: u128 = Number::capped_numerator(m, e as u32);
                    if v > u64::MAX as u128 {
                        u64::MAX
                    } else {
                        v as u64
                    }
                } else {
                    let (q, _, _) = shifted(m as u128, (-e) as u32);
                    proof {
                        lemma_power_positive(2, (-e) as nat);
                    }
                    assert(q <= m) by (nonlinear_arith)
                        requires
                            q == m as nat / power(2, (-e) as nat),
                            power(2, (-e) as nat) >= 1,
                    ;
                    q as u64
                }
            },
        }
    }

    /// The number rounded to the nearest count, a half rounded up.
    pub fn round_u64(self) -> (c: u64)
        ensures
            c == self.nearest_count(),
    {
        if self.is_nan() || self.is_negative() {
            return 0;
        }
        match self.parts() {
            None => u64::MAX,
            Some((m, e)) => {
                proof {
                    lemma_units_as_quotient(m as nat, e as int);
                }
                if e >= 0 {
                    let v: u128 = Number::capped_numerator(m, e as u32);
                    if v > u64::MAX as u128 {
                        u64::MAX
                    } else {
                        v as u64
                    }
                } else {
                    let t: u128 = halved_up(m as u128, (-e) as u32);
                    proof {
                        lemma_power_positive(2, (-e) as nat);
                    }
                    assert(t <= m + 1) by (nonlinear_arith)
                        requires
                            t <= m as nat / power(2, (-e) as nat) + 1,
                            power(2, (-e) as nat) >= 1,
                    ;
                    t as u64
                }
            },
        }
    }

    pub fn is_negative(self) -> (r: bool)
        ensures
            r == self.negative(),
    {
        self.bits >= SIGN_BIT
    }

    /// `self < other` as binary64 orders them.
    pub fn less_than(self, other: Number) -> (r: bool)
        ensures
            r == self.below(other),
    {
        if self.is_nan() || other.is_nan() {
            return false;
        }
        let a: u64 = self.abs_bits();
        let b: u64 = other.abs_bits();
        if self.is_negative() {
            if other.is_negative() {
                b < a
            } else {
                a > 0 || b > 0
            }
        } else {
            if other.is_negative() {
                false
            } else {
                a < b
            }
        }
    }

    /// `self > other` as binary64 orders them.
    pub fn greater_than(self, other: Number) -> (r: bool)
        ensures
            r == self.above(other),
    {
        other.less_than(self)
    }
}

/// A significand times a power of two, counted in the smallest positive
/// number, against one: with an exponent that is not negative it is a whole
/// number, and with a negative one the significand over a power of two.
pub proof fn lemma_units_as_quotient(m: nat, e: int)
    requires
        -1074 <= e,
    ensures
        e >= 0 ==> {
            &&& (m * power(2, (e + 1074) as nat)) / units_per_one() == m * power(2, e as nat)
            &&& (m * power(2, (e + 1074) as nat)) % units_per_one() == 0
            &&& round_half_up(m * power(2, (e + 1074) as nat), units_per_one()) == m * power(
                2,
                e as nat,
            )
            &&& round_half_even(m * power(2, (e + 1074) as nat), units_per_one()) == m * power(
                2,
                e as nat,
            )
        },
        e < 0 ==> {
            &&& (m * power(2, (e + 1074) as nat)) / units_per_one() == m / power(2, (-e) as nat)
            &&& round_half_up(m * power(2, (e + 1074) as nat), units_per_one()) == round_half_up(
                m,
                power(2, (-e) as nat),
            )
            &&& round_half_even(m * power(2, (e + 1074) as nat), units_per_one())
                == round_half_even(m, power(2, (-e) as nat))
        },
{
    let one = units_per_one();
    lemma_power_positive(2, 1074);
    if e >= 0 {
        let whole = m * power(2, e as nat);
        lemma_power_adds(2, e as nat, 1074);
        assert(m * power(2, (e + 1074) as nat) == whole * one + 0) by (nonlinear_arith)
            requires
                power(2, (e + 1074) as nat) == power(2, e as nat) * one,
                whole == m * power(2, e as nat),
        ;
        vstd::arithmetic::div_mod::lemma_fundamental_div_mod_converse(
            (whole * one) as int,
            one as int,
            whole as int,
            0,
        );
    } else {
        let c = power(2, (e + 1074) as nat);
        let d = power(2, (-e) as nat);
        lemma_power_positive(2, (e + 1074) as nat);
        lemma_power_positive(2, (-e) as nat);
        lemma_power_adds(2, (-e) as nat, (e + 1074) as nat);
        assert(one == d * c);
        lemma_rounding_cancels(m, d, c);
    }
}

/// The units of a magnitude. The magnitude of infinity stands for two to
/// the power of 1024, the first power of two beyond the finite numbers.
pub open spec fn units_of(magnitude: nat) -> nat {
    Number { bits: magnitude as u64 }.units()
}

/// The next magnitude has more units.
pub proof fn lemma_units_step(x: nat)
    requires
        x < INFINITY_MAGNITUDE,
    ensures
        units_of(x) < units_of(x + 1),
        x == 0 ==> units_of(x) == 0,
{
    let h = HIDDEN_BIT as nat;
    assert(power(2, 0) == 1);
    if x + 1 < h {
        assert(units_of(x) == x * 1);
        assert(units_of(x + 1) == (x + 1) * 1);
    } else if x + 1 == h {
        assert(units_of(x) == x * 1);
        assert(units_of(x + 1) == h * 1);
    } else {
        let field = x / h;
        let p = power(2, (field - 1) as nat);
        lemma_power_positive(2, (field - 1) as nat);
        let m = x % h + h;
        if x % h + 1 < h {
            assert((x + 1) / h == field && (x + 1) % h == x % h + 1);
            assert(m * p < (m + 1) * p) by (nonlinear_arith)
                requires
                    p > 0,
            ;
        } else {
            assert((x + 1) / h == field + 1 && (x + 1) % h == 0);
            assert(power(2, field) == 2 * p);
            assert(m * p < h * (2 * p)) by (nonlinear_arith)
                requires
                    p > 0,
                    m < 2 * h,
            ;
        }
    }
}

/// The least magnitude holds one unit.
pub proof fn lemma_least_unit()
    ensures
        units_of(1) == 1,
{
    let least = Number { bits: 1 };
    assert(least.significand() == 1 && least.exponent() == -1074);
    assert(power(2, 0) == 1);
    assert(least.units() == 1 * power(2, 0));
    assert(units_of(1) == least.units());
}

/// From the least magnitude on, the next magnitude has no more than twice
/// the units.
pub proof fn lemma_units_at_most_double(x: nat)
    requires
        1 <= x < INFINITY_MAGNITUDE,
    ensures
        units_of(x + 1) <= 2 * units_of(x),
{
    let h = HIDDEN_BIT as nat;
    assert(power(2, 0) == 1);
    if x + 1 < h {
        assert(units_of(x) == x * 1);
        assert(units_of(x + 1) == (x + 1) * 1);
    } else if x + 1 == h {
        assert(units_of(x) == x * 1);
        assert(units_of(x + 1) == h * 1);
    } else {
        let field = x / h;
        let p = power(2, (field - 1) as nat);
        lemma_power_positive(2, (field - 1) as nat);
        let m = x % h + h;
        if x % h + 1 < h {
            assert((x + 1) / h == field && (x + 1) % h == x % h + 1);
            assert((m + 1) * p <= 2 * (m * p)) by (nonlinear_arith)
                requires
                    p > 0,
                    m >= 1,
            ;
        } else {
            assert((x + 1) / h == field + 1 && (x + 1) % h == 0);
            assert(power(2, field) == 2 * p);
            assert(h * (2 * p) <= 2 * (m * p)) by (nonlinear_arith)
                requires
                    p > 0,
                    m >= h,
            ;
        }
    }
}

/// The step from a magnitude to the next is one unit, or no more than
/// the units of the magnitude over two to the power of 52.
pub proof fn lemma_units_step_is_small(x: nat)
    requires
        x < INFINITY_MAGNITUDE,
    ensures
        HIDDEN_BIT * (units_of(x + 1) - units_of(x)) <= units_of(x) + HIDDEN_BIT,
{
    let h = HIDDEN_BIT as nat;
    assert(power(2, 0) == 1);
    if x + 1 < h {
        assert(units_of(x) == x * 1);
        assert(units_of(x + 1) == (x + 1) * 1);
    } else if x + 1 == h {
        assert(units_of(x) == x * 1);
        assert(units_of(x + 1) == h * 1);
    } else {
        let field = x / h;
        let p = power(2, (field - 1) as nat);
        lemma_power_positive(2, (field - 1) as nat);
        let m = x % h + h;
        if x % h + 1 < h {
            assert((x + 1) / h == field && (x + 1) % h == x % h + 1);
            assert(h * ((m + 1) * p - m * p) <= m * p + h) by (nonlinear_arith)
                requires
                    p > 0,
                    m >= h,
            ;
        } else {
            assert((x + 1) / h == field + 1 && (x + 1) % h == 0);
            assert(power(2, field) == 2 * p);
            assert(h * (h * (2 * p) - m * p) <= m * p + h) by (nonlinear_arith)
                requires
                    p > 0,
                    m == 2 * h - 1,
            ;
        }
    }
}

/// A greater magnitude has more units.
pub proof fn lemma_units_grow(x: nat, y: nat)
    requires
        x < y <= INFINITY_MAGNITUDE,
    ensures
        units_of(x) < units_of(y),
    decreases y - x,
{
    lemma_units_step(x);
    if x + 1 < y {
        lemma_units_grow(x + 1, y);
    }
}

/// Among finite numbers, below is the order of the values: one number is
/// below another exactly if it holds fewer of the smallest positive number.
pub proof fn lemma_below_is_the_order_of_values(a: Number, b: Number)
    requires
        a.finite(),
        b.finite(),
    ensures
        a.below(b) <==> a.signed_units() < b.signed_units(),
        a.units() == 0 <==> a.magnitude() == 0,
{
    let x = a.magnitude();
    let y = b.magnitude();
    assert(a.units() == units_of(x));
    assert(b.units() == units_of(y));
    lemma_units_step(0);
    if x < y {
        lemma_units_grow(x, y);
    }
    if y < x {
        lemma_units_grow(y, x);
    }
    if 0 < x {
        lemma_units_grow(0, x);
    }
    if 0 < y {
        lemma_units_grow(0, y);
    }
}

/// Infinity is above every finite number and below none, and minus
/// infinity below every finite number and above none.
pub proof fn lemma_infinity_is_outermost(a: Number, b: Number)
    requires
        a.infinite(),
        b.finite(),
    ensures
        a.negative() ==> a.below(b) && !b.below(a),
        !a.negative() ==> b.below(a) && !a.below(b),
{
}

/// No number is below itself, and of two numbers at most one is below the
/// other.
pub proof fn lemma_below_is_strict(a: Number, b: Number)
    ensures
        !a.below(a),
        !(a.below(b) && b.below(a)),
{
}

/// Below is transitive.
pub proof fn lemma_below_is_transitive(a: Number, b: Number, c: Number)
    requires
        a.below(b),
        b.below(c),
    ensures
        a.below(c),
{
}

/// Of two numbers that are not NaN, one is below the other or they share
/// their ordinal.
pub proof fn lemma_below_is_total(a: Number, b: Number)
    requires
        !a.nan(),
        !b.nan(),
    ensures
        a.below(b) || b.below(a) || a.ordinal() == b.ordinal(),
{
}

} // verus!
