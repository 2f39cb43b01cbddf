//! Whole numbers of any length, as vectors of decimal digits with the
//! lowest digit first.

use crate::rounding::{lemma_power_positive, power};
use crate::text::{decimal, digit, tail_of};
use vstd::prelude::*;

verus! {

/// The number that decimal digits stand for, the lowest digit first.
pub open spec fn digits_value(d: Seq<u8>) -> nat
    decreases d.len(),
{
    if d.len() == 0 {
        0
    } else {
        d[0] as nat + 10 * digits_value(d.drop_first())
    }
}

/// Digits as a numeral has them: one or more, each below ten, and no zero
/// on top of another digit.
pub open spec fn normal(d: Seq<u8>) -> bool {
    &&& d.len() >= 1
    &&& forall|i: int| 0 <= i < d.len() ==> d[i] < 10
    &&& d.len() == 1 || d.last() != 0
}

/// A digit on top adds itself times the power of ten of its place.
pub proof fn lemma_digits_value_push(d: Seq<u8>, x: u8)
    ensures
        digits_value(d.push(x)) == digits_value(d) + x * power(10, d.len()),
    decreases d.len(),
{
    if d.len() == 0 {
        assert(d.push(x).drop_first() =~= Seq::<u8>::empty());
        assert(digits_value(d.push(x).drop_first()) == 0);
        assert(power(10, 0) == 1);
    } else {
        lemma_digits_value_push(d.drop_first(), x);
        assert(d.push(x).drop_first() =~= d.drop_first().push(x));
        let rest = digits_value(d.drop_first());
        let p = power(10, (d.len() - 1) as nat);
        assert(power(10, d.len()) == 10 * p);
        assert(10 * (rest + x * p) == 10 * rest + x * (10 * p)) by (nonlinear_arith);
    }
}

/// Digits with a top digit that is not zero stand for a number that is not
/// zero.
pub proof fn lemma_digits_value_positive(d: Seq<u8>)
    requires
        d.len() >= 1,
        d.last() != 0,
    ensures
        digits_value(d) > 0,
    decreases d.len(),
{
    if d.len() > 1 {
        lemma_digits_value_positive(d.drop_first());
    }
}

/// Normal digits, read from the top, are the decimal numeral of what they
/// stand for.
pub proof fn lemma_digits_are_decimal(d: Seq<u8>)
    requires
        normal(d),
    ensures
        tail_of(d) == decimal(digits_value(d)),
    decreases d.len(),
{
    let rest = d.drop_first();
    if d.len() == 1 {
        assert(rest =~= Seq::<u8>::empty());
        assert(digits_value(rest) == 0);
        assert(tail_of(d) =~= decimal(digits_value(d)));
    } else {
        lemma_digits_are_decimal(rest);
        lemma_digits_value_positive(rest);
        assert(tail_of(d) =~= tail_of(rest).push(digit(d[0] as nat)));
    }
}

/// The decimal digits of `m`, the lowest first.
pub(crate) fn digits_of(m: u64) -> (d: Vec<u8>)
    ensures
        normal(d@),
        digits_value(d@) == m,
{
    let mut d: Vec<u8> = Vec::new();
    let mut rest: u64 = m;
    assert(power(10, 0) == 1);
    assert(rest * power(10, 0) == rest) by (nonlinear_arith)
        requires
            power(10, 0) == 1,
    ;
    while rest >= 10
        invariant
            forall|i: int| 0 <= i < d.len() ==> d[i] < 10,
            digits_value(d@) + rest * power(10, d.len() as nat) == m,
            d.len() >= 1 ==> rest >= 1,
        decreases rest,
    {
        let ghost before = d@;
        let ghost p = power(10, before.len());
        let x: u8 = (rest % 10) as u8;
        d.push(x);
        proof {
            lemma_digits_value_push(before, x);
            assert(power(10, before.len() + 1) == 10 * p);
            assert(x * p + (rest / 10) * (10 * p) == rest * p) by (nonlinear_arith)
                requires
                    rest == 10 * (rest / 10) + x,
            ;
        }
        rest = rest / 10;
    }
    let ghost before = d@;
    d.push(rest as u8);
    proof {
        lemma_digits_value_push(before, rest as u8);
    }
    d
}

/// The digits of twice the number.
pub(crate) fn doubled(d: &Vec<u8>) -> (r: Vec<u8>)
    requires
        normal(d@),
    ensures
        normal(r@),
        digits_value(r@) == 2 * digits_value(d@),
{
    let mut r: Vec<u8> = Vec::new();
    let mut carry: u8 = 0;
    let mut i: usize = 0;
    assert(d@.take(0) =~= Seq::<u8>::empty());
    assert(power(10, 0) == 1);
    while i < d.len()
        invariant
            i <= d.len(),
            normal(d@),
            r.len() == i,
            carry <= 1,
            forall|k: int| 0 <= k < r.len() ==> r[k] < 10,
            digits_value(r@) + carry * power(10, i as nat) == 2 * digits_value(d@.take(i as int)),
            i >= 1 ==> r[i - 1] + 10 * carry >= 2 * d[i - 1],
        decreases d.len() - i,
    {
        let ghost before = r@;
        let ghost p = power(10, i as nat);
        let x: u8 = 2 * d[i] + carry;
        r.push(x % 10);
        proof {
            lemma_digits_value_push(before, x % 10);
            lemma_digits_value_push(d@.take(i as int), d[i as int]);
            assert(d@.take(i + 1) =~= d@.take(i as int).push(d[i as int]));
            assert(power(10, (i + 1) as nat) == 10 * p);
            assert((x % 10) * p + (x / 10) * (10 * p) == carry * p + 2 * (d[i as int] * p))
                by (nonlinear_arith)
                requires
                    x == 10 * (x / 10) + x % 10,
                    x == 2 * d[i as int] + carry,
            ;
        }
        carry = x / 10;
        i = i + 1;
    }
    assert(d@.take(d.len() as int) =~= d@);
    if carry > 0 {
        let ghost before = r@;
        r.push(carry);
        proof {
            lemma_digits_value_push(before, carry);
        }
    }
    r
}


/// Whether every item is a decimal digit.
pub open spec fn are_digits(d: Seq<u8>) -> bool {
    forall|i: int| 0 <= i < d.len() ==> d[i] < 10
}

/// Digits stand for less than the power of ten of their number.
pub proof fn lemma_digits_bound(d: Seq<u8>)
    requires
        are_digits(d),
    ensures
        digits_value(d) < power(10, d.len()),
    decreases d.len(),
{
    if d.len() == 0 {
        assert(power(10, 0) == 1);
    } else {
        let rest = d.drop_first();
        lemma_digits_bound(rest);
        assert(power(10, d.len()) == 10 * power(10, rest.len()));
    }
}

/// Digits split at a place into the digits below it and the digits from it
/// on, which count the power of ten of the place.
pub proof fn lemma_digits_split(d: Seq<u8>, p: nat)
    requires
        p <= d.len(),
    ensures
        digits_value(d) == digits_value(d.take(p as int)) + power(10, p) * digits_value(
            d.skip(p as int),
        ),
    decreases p,
{
    if p == 0 {
        assert(d.take(0) =~= Seq::<u8>::empty());
        assert(d.skip(0) =~= d);
        assert(power(10, 0) == 1);
        assert(1 * digits_value(d) == digits_value(d)) by (nonlinear_arith);
    } else {
        let rest = d.drop_first();
        lemma_digits_split(rest, (p - 1) as nat);
        assert(d.take(p as int).drop_first() =~= rest.take(p - 1));
        assert(d.skip(p as int) =~= rest.skip(p - 1));
        let low = digits_value(rest.take(p - 1));
        let high = digits_value(d.skip(p as int));
        let t = power(10, (p - 1) as nat);
        assert(power(10, p) == 10 * t);
        assert(10 * (low + t * high) == 10 * low + (10 * t) * high) by (nonlinear_arith);
    }
}

/// Digits that stand for nothing are all zero.
pub proof fn lemma_digits_of_nothing(d: Seq<u8>)
    ensures
        digits_value(d) == 0 <==> forall|i: int| 0 <= i < d.len() ==> d[i] == 0,
    decreases d.len(),
{
    if d.len() > 0 {
        let rest = d.drop_first();
        lemma_digits_of_nothing(rest);
        if digits_value(d) == 0 {
            assert forall|i: int| 0 <= i < d.len() implies d[i] == 0 by {
                if i > 0 {
                    assert(rest[i - 1] == d[i]);
                }
            }
        } else if forall|i: int| 0 <= i < d.len() ==> d[i] == 0 {
            assert forall|i: int| 0 <= i < rest.len() implies rest[i] == 0 by {
                assert(rest[i] == d[i + 1]);
            }
        }
    }
}

/// The digits of `k` times the number, for a factor of one digit.
pub(crate) fn times_digit(d: &Vec<u8>, k: u8) -> (r: Vec<u8>)
    requires
        are_digits(d@),
        k <= 9,
    ensures
        are_digits(r@),
        digits_value(r@) == k * digits_value(d@),
        r.len() >= d.len(),
        normal(d@) && k >= 1 ==> normal(r@),
{
    let mut r: Vec<u8> = Vec::new();
    let mut carry: u8 = 0;
    let mut i: usize = 0;
    assert(d@.take(0) =~= Seq::<u8>::empty());
    assert(power(10, 0) == 1);
    assert(k * 0 == 0 && 0 * power(10, 0) == 0) by (nonlinear_arith);
    while i < d.len()
        invariant
            i <= d.len(),
            are_digits(d@),
            k <= 9,
            r.len() == i,
            carry <= 8,
            are_digits(r@),
            digits_value(r@) + carry * power(10, i as nat) == k * digits_value(d@.take(i as int)),
            i >= 1 ==> r[i - 1] + 10 * carry >= k * d[i - 1],
        decreases d.len() - i,
    {
        let ghost before = r@;
        let ghost p = power(10, i as nat);
        let ghost low = digits_value(d@.take(i as int));
        assert(k * d[i as int] <= 81) by (nonlinear_arith)
            requires
                k <= 9,
                d[i as int] <= 9,
        ;
        let x: u8 = k * d[i] + carry;
        r.push(x % 10);
        proof {
            lemma_digits_value_push(before, x % 10);
            lemma_digits_value_push(d@.take(i as int), d[i as int]);
            assert(d@.take(i + 1) =~= d@.take(i as int).push(d[i as int]));
            assert(power(10, (i + 1) as nat) == 10 * p);
            assert((x % 10) * p + (x / 10) * (10 * p) == carry * p + k * (d[i as int] * p))
                by (nonlinear_arith)
                requires
                    x == 10 * (x / 10) + x % 10,
                    x == k * d[i as int] + carry,
            ;
            assert(k * (low + d[i as int] * p) == k * low + k * (d[i as int] * p))
                by (nonlinear_arith);
        }
        carry = x / 10;
        i = i + 1;
    }
    assert(d@.take(d.len() as int) =~= d@);
    if carry > 0 {
        let ghost before = r@;
        r.push(carry);
        proof {
            lemma_digits_value_push(before, carry);
        }
    } else {
        assert(0 * power(10, d.len() as nat) == 0) by (nonlinear_arith);
        proof {
            if normal(d@) && k >= 1 && d.len() > 1 {
                assert(k * d[d.len() - 1] >= 1) by (nonlinear_arith)
                    requires
                        k >= 1,
                        d[d.len() - 1] >= 1,
                ;
            }
        }
    }
    r
}

/// The digits of the number times ten to the power of `zeros`.
pub(crate) fn times_power_of_ten(d: &Vec<u8>, zeros: usize) -> (r: Vec<u8>)
    requires
        are_digits(d@),
    ensures
        are_digits(r@),
        digits_value(r@) == power(10, zeros as nat) * digits_value(d@),
{
    let mut r: Vec<u8> = Vec::new();
    let mut i: usize = 0;
    proof {
        lemma_digits_of_nothing(r@);
    }
    while i < zeros
        invariant
            i <= zeros,
            r.len() == i,
            forall|k: int| 0 <= k < r.len() ==> r[k] == 0,
        decreases zeros - i,
    {
        r.push(0);
        i = i + 1;
    }
    let ghost low = r@;
    proof {
        lemma_digits_of_nothing(low);
    }
    let mut j: usize = 0;
    while j < d.len()
        invariant
            j <= d.len(),
            are_digits(d@),
            r@ == low + d@.take(j as int),
            low.len() == zeros,
        decreases d.len() - j,
    {
        r.push(d[j]);
        j = j + 1;
        assert(r@ =~= low + d@.take(j as int));
    }
    proof {
        assert(d@.take(d.len() as int) =~= d@);
        assert(r@.take(zeros as int) =~= low);
        assert(r@.skip(zeros as int) =~= d@);
        lemma_digits_split(r@, zeros as nat);
        assert forall|k: int| 0 <= k < r.len() implies r[k] < 10 by {
            if k >= zeros {
                assert(r[k] == d[k - zeros]);
            }
        }
    }
    r
}

/// The number without its lowest `p` digits, as far as it is below `cap`:
/// from `cap` on it comes out as `cap`.
pub(crate) fn whole_part(d: &Vec<u8>, p: usize, cap: u64) -> (q: u64)
    requires
        are_digits(d@),
        p <= d.len(),
        cap <= 0x40_0000_0000_0000,
    ensures
        digits_value(d@.skip(p as int)) < cap ==> q == digits_value(d@.skip(p as int)),
        digits_value(d@.skip(p as int)) >= cap ==> q == cap,
{
    let mut q: u64 = 0;
    let mut i: usize = d.len();
    assert(d@.skip(d.len() as int) =~= Seq::<u8>::empty());
    while i > p
        invariant
            p <= i <= d.len(),
            are_digits(d@),
            cap <= 0x40_0000_0000_0000,
            q <= cap,
            digits_value(d@.skip(i as int)) < cap ==> q == digits_value(d@.skip(i as int)),
            digits_value(d@.skip(i as int)) >= cap ==> q == cap,
        decreases i,
    {
        i = i - 1;
        assert(d@.skip(i as int).drop_first() =~= d@.skip(i + 1));
        assert(d@.skip(i as int)[0] == d[i as int]);
        let next: u64 = q * 10 + d[i] as u64;
        q = if next > cap {
            cap
        } else {
            next
        };
    }
    q
}

/// The whole part and the remainder of digits at a place.
pub proof fn lemma_digits_quotient(d: Seq<u8>, p: nat)
    requires
        are_digits(d),
        p <= d.len(),
    ensures
        power(10, p) > 0,
        digits_value(d) / power(10, p) == digits_value(d.skip(p as int)),
        digits_value(d) % power(10, p) == digits_value(d.take(p as int)),
{
    lemma_digits_split(d, p);
    lemma_power_positive(10, p);
    lemma_digits_bound(d.take(p as int));
    let t = power(10, p);
    let high = digits_value(d.skip(p as int));
    assert(t * high == high * t) by (nonlinear_arith);
    vstd::arithmetic::div_mod::lemma_fundamental_div_mod_converse(
        digits_value(d) as int,
        t as int,
        high as int,
        digits_value(d.take(p as int)) as int,
    );
}

} // verus!
