//! The arithmetic keeps the order: of two operands the greater gives no
//! smaller a sum, no smaller a quotient by a number above zero, and no
//! smaller a product with one. Rounding may make two results equal; it
//! never turns them round.

use crate::arith::{lemma_nearest_of_nothing, negated, product, quotient, sum, sum_of_units};
use crate::nearest::{lemma_floor_exists, lemma_nearest_grows, lemma_signed, nearest_magnitude};
use crate::number::{
    lemma_below_is_the_order_of_values, lemma_units_grow, lemma_units_step, units_of,
    units_per_one, Number, INFINITY_MAGNITUDE,
};
use crate::rounding::lemma_power_positive;
use vstd::prelude::*;

verus! {

/// No greater: neither number is a NaN, and the first is not above the
/// second. The two zeros are no greater than each other.
pub open spec fn at_most(a: Number, b: Number) -> bool {
    !a.nan() && !b.nan() && a.ordinal() <= b.ordinal()
}

/// Finite and above zero.
pub open spec fn positive(b: Number) -> bool {
    b.finite() && !b.negative() && b.magnitude() > 0
}

/// The absolute value of a whole number.
pub open spec fn size(x: int) -> nat {
    if x < 0 {
        (-x) as nat
    } else {
        x as nat
    }
}

/// Whether `r` is `num / den` units rounded to the nearest number, under
/// the sign of `num`; a zero may have either sign.
pub open spec fn rounds(r: Number, num: int, den: nat) -> bool {
    &&& r.magnitude() == nearest_magnitude(size(num), den)
    &&& num > 0 ==> !r.negative()
    &&& num < 0 ==> r.negative()
}

/// Rounding keeps the order of what it rounds.
proof fn lemma_rounding_keeps_order(r1: Number, n1: int, d1: nat, r2: Number, n2: int, d2: nat)
    requires
        d1 > 0,
        d2 > 0,
        rounds(r1, n1, d1),
        rounds(r2, n2, d2),
        n1 * d2 <= n2 * d1,
    ensures
        at_most(r1, r2),
{
    lemma_floor_exists(size(n1), d1);
    lemma_floor_exists(size(n2), d2);
    lemma_nearest_of_nothing(d1);
    lemma_nearest_of_nothing(d2);
    if n1 > 0 {
        assert(n2 > 0) by (nonlinear_arith)
            requires
                n1 > 0,
                d1 > 0,
                d2 > 0,
                n1 * d2 <= n2 * d1,
        ;
        lemma_nearest_grows(size(n1), d1, size(n2), d2);
    } else if n2 < 0 {
        assert(n1 < 0) by (nonlinear_arith)
            requires
                n2 < 0,
                d1 > 0,
                d2 > 0,
                n1 * d2 <= n2 * d1,
        ;
        assert(size(n2) * d1 <= size(n1) * d2) by (nonlinear_arith)
            requires
                n1 * d2 <= n2 * d1,
                size(n1) == -n1,
                size(n2) == -n2,
        ;
        lemma_nearest_grows(size(n2), d2, size(n1), d1);
    }
}

/// The sum of two finite numbers is their exact sum, rounded.
pub proof fn lemma_sum_rounds(a: Number, b: Number)
    requires
        a.finite(),
        b.finite(),
    ensures
        rounds(sum(a, b), a.signed_units() + b.signed_units(), 1),
{
    let s = a.signed_units() + b.signed_units();
    assert(sum(a, b) == sum_of_units(a.negative(), a.units(), b.negative(), b.units()));
    lemma_nearest_of_nothing(1);
    lemma_floor_exists(size(s), 1);
    if s == 0 {
        lemma_signed(a.negative() && b.negative(), 0);
    } else {
        lemma_signed(s < 0, nearest_magnitude(size(s), 1));
    }
}

/// The quotient of a finite number by a number above zero is the exact
/// quotient, rounded.
pub proof fn lemma_quotient_rounds(a: Number, b: Number)
    requires
        a.finite(),
        positive(b),
    ensures
        b.units() > 0,
        rounds(quotient(a, b), a.signed_units() * units_per_one(), b.units()),
{
    lemma_units_step(0);
    lemma_units_grow(0, b.magnitude());
    lemma_power_positive(2, 1074);
    assert(b.units() == units_of(b.magnitude()));
    let unit = units_per_one();
    let exact = a.signed_units() * unit;
    assert(size(exact) == a.units() * unit && (exact > 0 ==> a.signed_units() > 0) && (exact < 0
        ==> a.signed_units() < 0)) by (nonlinear_arith)
        requires
            exact == a.signed_units() * unit,
            unit > 0,
            a.signed_units() == a.units() || a.signed_units() == -a.units(),
    ;
    lemma_floor_exists(a.units() * unit, b.units());
    lemma_signed(a.negative(), nearest_magnitude(a.units() * unit, b.units()));
    if a.units() == 0 {
        assert(a.units() * unit == 0) by (nonlinear_arith)
            requires
                a.units() == 0,
        ;
        lemma_nearest_of_nothing(b.units());
    }
}

/// The product of a finite number and a number above zero is the exact
/// product, rounded.
proof fn lemma_product_rounds(a: Number, b: Number)
    requires
        a.finite(),
        positive(b),
    ensures
        rounds(product(a, b), a.signed_units() * b.units(), units_per_one()),
        rounds(product(b, a), a.signed_units() * b.units(), units_per_one()),
{
    lemma_units_step(0);
    lemma_units_grow(0, b.magnitude());
    lemma_power_positive(2, 1074);
    assert(b.units() == units_of(b.magnitude()));
    let unit = units_per_one();
    let parts = b.units();
    let exact = a.signed_units() * parts;
    assert(size(exact) == a.units() * parts && size(exact) == parts * a.units() && (exact > 0
        ==> a.signed_units() > 0) && (exact < 0 ==> a.signed_units() < 0)) by (nonlinear_arith)
        requires
            exact == a.signed_units() * parts,
            parts > 0,
            a.signed_units() == a.units() || a.signed_units() == -a.units(),
    ;
    lemma_floor_exists(a.units() * parts, unit);
    lemma_signed(a.negative(), nearest_magnitude(a.units() * parts, unit));
    lemma_signed(b.negative() != a.negative(), nearest_magnitude(parts * a.units(), unit));
    if a.units() == 0 {
        assert(a.units() * parts == 0) by (nonlinear_arith)
            requires
                a.units() == 0,
        ;
        lemma_nearest_of_nothing(unit);
    }
}

/// Among finite numbers, no greater is the order of the values.
proof fn lemma_finite_order(a: Number, b: Number)
    requires
        a.finite(),
        b.finite(),
    ensures
        at_most(a, b) <==> a.signed_units() <= b.signed_units(),
{
    lemma_below_is_the_order_of_values(b, a);
    lemma_below_is_the_order_of_values(a, b);
}

/// A greater summand gives no smaller a sum, on either side of a finite
/// number.
pub proof fn lemma_sum_keeps_order(a1: Number, a2: Number, b: Number)
    requires
        at_most(a1, a2),
        b.finite(),
    ensures
        at_most(sum(a1, b), sum(a2, b)),
        at_most(sum(b, a1), sum(b, a2)),
{
    lemma_signed(false, 0);
    if a1.finite() && a2.finite() {
        lemma_finite_order(a1, a2);
        lemma_sum_rounds(a1, b);
        lemma_sum_rounds(a2, b);
        lemma_sum_rounds(b, a1);
        lemma_sum_rounds(b, a2);
        let s1 = a1.signed_units() + b.signed_units();
        let s2 = a2.signed_units() + b.signed_units();
        lemma_rounding_keeps_order(sum(a1, b), s1, 1, sum(a2, b), s2, 1);
        lemma_rounding_keeps_order(sum(b, a1), s1, 1, sum(b, a2), s2, 1);
    } else if a1.finite() {
        lemma_sum_rounds(a1, b);
        lemma_sum_rounds(b, a1);
        lemma_floor_exists(size(a1.signed_units() + b.signed_units()), 1);
    } else if a2.finite() {
        lemma_sum_rounds(a2, b);
        lemma_sum_rounds(b, a2);
        lemma_floor_exists(size(a2.signed_units() + b.signed_units()), 1);
    }
}

/// Of two numbers with a sum, the one with the other sign comes first
/// where the other comes last.
pub proof fn lemma_negation_turns_order(a1: Number, a2: Number)
    requires
        at_most(a1, a2),
    ensures
        at_most(negated(a2), negated(a1)),
        negated(a1).finite() == a1.finite(),
        negated(a2).finite() == a2.finite(),
{
}

/// A greater dividend gives no smaller a quotient by a number above zero.
pub proof fn lemma_quotient_keeps_order(a1: Number, a2: Number, b: Number)
    requires
        at_most(a1, a2),
        positive(b),
    ensures
        at_most(quotient(a1, b), quotient(a2, b)),
{
    let unit = units_per_one();
    lemma_power_positive(2, 1074);
    lemma_signed(false, INFINITY_MAGNITUDE as nat);
    lemma_signed(true, INFINITY_MAGNITUDE as nat);
    if a1.finite() {
        lemma_quotient_rounds(a1, b);
        lemma_floor_exists(size(a1.signed_units() * unit), b.units());
    }
    if a2.finite() {
        lemma_quotient_rounds(a2, b);
        lemma_floor_exists(size(a2.signed_units() * unit), b.units());
    }
    if a1.finite() && a2.finite() {
        lemma_finite_order(a1, a2);
        let n1 = a1.signed_units() * unit;
        let n2 = a2.signed_units() * unit;
        assert(n1 * b.units() <= n2 * b.units()) by (nonlinear_arith)
            requires
                n1 == a1.signed_units() * unit,
                n2 == a2.signed_units() * unit,
                a1.signed_units() <= a2.signed_units(),
                unit > 0,
                b.units() > 0,
        ;
        lemma_rounding_keeps_order(quotient(a1, b), n1, b.units(), quotient(a2, b), n2, b.units());
    }
}

/// A greater factor gives no smaller a product with a number above zero,
/// on either side of it.
pub proof fn lemma_product_keeps_order(a1: Number, a2: Number, b: Number)
    requires
        at_most(a1, a2),
        positive(b),
    ensures
        at_most(product(a1, b), product(a2, b)),
        at_most(product(b, a1), product(b, a2)),
{
    let unit = units_per_one();
    lemma_power_positive(2, 1074);
    lemma_signed(false, INFINITY_MAGNITUDE as nat);
    lemma_signed(true, INFINITY_MAGNITUDE as nat);
    lemma_units_step(0);
    lemma_units_grow(0, b.magnitude());
    assert(b.units() == units_of(b.magnitude()));
    if a1.finite() {
        lemma_product_rounds(a1, b);
        lemma_floor_exists(size(a1.signed_units() * b.units()), unit);
    }
    if a2.finite() {
        lemma_product_rounds(a2, b);
        lemma_floor_exists(size(a2.signed_units() * b.units()), unit);
    }
    if a1.finite() && a2.finite() {
        lemma_finite_order(a1, a2);
        let n1 = a1.signed_units() * b.units();
        let n2 = a2.signed_units() * b.units();
        assert(n1 * unit <= n2 * unit) by (nonlinear_arith)
            requires
                n1 == a1.signed_units() * b.units(),
                n2 == a2.signed_units() * b.units(),
                a1.signed_units() <= a2.signed_units(),
                unit > 0,
                b.units() > 0,
        ;
        lemma_rounding_keeps_order(product(a1, b), n1, unit, product(a2, b), n2, unit);
        lemma_rounding_keeps_order(product(b, a1), n1, unit, product(b, a2), n2, unit);
    }
}

/// A greater number has no smaller a count below it.
pub proof fn lemma_floor_keeps_order(a1: Number, a2: Number)
    requires
        at_most(a1, a2),
    ensures
        a1.floor_count() <= a2.floor_count(),
{
    lemma_power_positive(2, 1074);
    lemma_units_step(0);
    let unit = units_per_one();
    if !a1.negative() && a1.finite() && a2.finite() {
        assert(a1.units() == units_of(a1.magnitude()));
        assert(a2.units() == units_of(a2.magnitude()));
        if a1.magnitude() == 0 {
            assert(0nat / unit == 0) by (nonlinear_arith)
                requires
                    unit > 0,
            ;
        } else {
            if a1.magnitude() < a2.magnitude() {
                lemma_units_grow(a1.magnitude(), a2.magnitude());
            }
            assert(a1.units() / unit <= a2.units() / unit) by (nonlinear_arith)
                requires
                    a1.units() <= a2.units(),
                    unit > 0,
            ;
        }
    }
}

} // verus!
