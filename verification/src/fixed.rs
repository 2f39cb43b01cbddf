//! Numbers written out with a fixed number of decimal places.
//!
//! The text of a finite number is exact: its absolute value, which is a
//! significand times a power of two, is multiplied by the power of ten of
//! the places and rounded to the nearest whole, a half to the even
//! neighbour. A set sign bit puts a minus in front, also in front of zero.

use crate::decimal::{digits_of, digits_value, doubled, lemma_digits_are_decimal, normal};
use crate::number::{lemma_units_as_quotient, units_per_one, Number};
use crate::rounding::{halved_to_even, lemma_power_positive, power, round_half_even};
use crate::text::{decimal, point_text, push_decimal, push_digits, push_zero_padded};
use vstd::arithmetic::div_mod::lemma_fundamental_div_mod_converse;
use vstd::prelude::*;
use vstd::string::*;

verus! {

/// The most places that a number is written with.
pub const MAX_PLACES: u8 = 18;

/// Ten to the power of `places`.
fn ten_to(places: u8) -> (scale: u64)
    requires
        places <= MAX_PLACES,
    ensures
        scale == power(10, places as nat),
        0 < scale <= 1_000_000_000_000_000_000,
{
    let mut scale: u64 = 1;
    let mut i: u8 = 0;
    assert(power(10, 0) == 1);
    assert(power(10, MAX_PLACES as nat) == 1_000_000_000_000_000_000) by {
        reveal_with_fuel(power, 19);
    }
    while i < places
        invariant
            i <= places <= MAX_PLACES,
            scale == power(10, i as nat),
            scale * power(10, (MAX_PLACES - i) as nat) == power(10, MAX_PLACES as nat),
            power(10, MAX_PLACES as nat) == 1_000_000_000_000_000_000,
        decreases places - i,
    {
        proof {
            let rest = power(10, (MAX_PLACES - i - 1) as nat);
            lemma_power_positive(10, (MAX_PLACES - i - 1) as nat);
            assert(power(10, (MAX_PLACES - i) as nat) == 10 * rest);
            assert(power(10, (i + 1) as nat) == 10 * scale);
            assert((10 * scale) * rest == scale * (10 * rest)) by (nonlinear_arith);
            assert(10 * scale <= (10 * scale) * rest) by (nonlinear_arith)
                requires
                    rest >= 1,
            ;
        }
        scale = scale * 10;
        i = i + 1;
    }
    proof {
        lemma_power_positive(10, places as nat);
        lemma_power_positive(10, (MAX_PLACES - places) as nat);
        let rest = power(10, (MAX_PLACES - places) as nat);
        assert(scale <= scale * rest) by (nonlinear_arith)
            requires
                rest >= 1,
        ;
    }
    scale
}

/// The absolute value of a finite number times ten to the power of
/// `places`, rounded to the nearest whole, a half to the even neighbour.
pub open spec fn scaled(n: Number, places: nat) -> nat
    recommends
        n.finite(),
{
    round_half_even(n.units() * power(10, places), units_per_one())
}

/// A minus where the sign bit is set.
pub open spec fn sign_text(n: Number) -> Seq<char> {
    if n.negative() {
        seq!['-']
    } else {
        Seq::empty()
    }
}

/// The number written with `places` decimal places: `NaN` for a NaN,
/// `inf` for infinity, and else the rounded value, each but `NaN` behind
/// its sign.
pub open spec fn fixed_text(n: Number, places: nat) -> Seq<char> {
    if n.nan() {
        "NaN"@
    } else if n.infinite() {
        sign_text(n) + "inf"@
    } else {
        sign_text(n) + point_text(scaled(n, places), places)
    }
}

/// Appends `t / 10^places` with its places.
fn push_point(out: &mut String, t: u128, places: u8, scale: u64)
    requires
        scale == power(10, places as nat),
        scale > 0,
    ensures
        final(out)@ == old(out)@ + point_text(t as nat, places as nat),
{
    if places == 0 {
        push_decimal(out, t);
    } else {
        proof {
            reveal_strlit(".");
        }
        push_decimal(out, t / (scale as u128));
        out.append(".");
        push_zero_padded(out, t % (scale as u128), places);
        assert(out@ =~= old(out)@ + point_text(t as nat, places as nat));
    }
}

/// Appends the whole number `m * 2^e` with `places` zeros behind the point.
fn push_whole(out: &mut String, m: u64, e: u32, places: u8)
    ensures
        final(out)@ == old(out)@ + point_text(
            m as nat * power(2, e as nat) * power(10, places as nat),
            places as nat,
        ),
{
    let mut d: Vec<u8> = digits_of(m);
    let mut i: u32 = 0;
    assert(m * power(2, 0) == m) by (nonlinear_arith)
        requires
            power(2, 0) == 1,
    ;
    while i < e
        invariant
            i <= e,
            normal(d@),
            digits_value(d@) == m * power(2, i as nat),
        decreases e - i,
    {
        proof {
            let p = power(2, i as nat);
            assert(power(2, (i + 1) as nat) == 2 * p);
            assert(2 * (m * p) == m * (2 * p)) by (nonlinear_arith);
        }
        d = doubled(&d);
        i = i + 1;
    }
    let ghost whole = m as nat * power(2, e as nat);
    let ghost scale = power(10, places as nat);
    let ghost t = whole * scale;
    proof {
        lemma_digits_are_decimal(d@);
        lemma_power_positive(10, places as nat);
        assert(t == whole * scale + 0);
        lemma_fundamental_div_mod_converse(t as int, scale as int, whole as int, 0);
    }
    push_digits(out, &d);
    if places == 0 {
        assert(scale == 1);
        assert(t == whole) by (nonlinear_arith)
            requires
                t == whole * scale + 0,
                scale == 1,
        ;
    } else {
        proof {
            reveal_strlit(".");
        }
        out.append(".");
        push_zero_padded(out, 0, places);
        assert(out@ =~= old(out)@ + point_text(t, places as nat));
    }
}

/// Appends `n` written with `places` decimal places.
pub fn push_fixed(out: &mut String, n: Number, places: u8)
    requires
        places <= MAX_PLACES,
    ensures
        final(out)@ == old(out)@ + fixed_text(n, places as nat),
{
    proof {
        reveal_strlit("NaN");
        reveal_strlit("inf");
        reveal_strlit("-");
    }
    if n.is_nan() {
        out.append("NaN");
        return ;
    }
    if n.is_negative() {
        out.append("-");
    }
    let ghost signed = out@;
    assert(signed =~= old(out)@ + sign_text(n));
    let (m, e) = match n.parts() {
        Some(parts) => parts,
        None => {
            out.append("inf");
            assert(out@ =~= old(out)@ + (sign_text(n) + "inf"@));
            return ;
        },
    };
    let ghost p = power(10, places as nat);
    proof {
        lemma_units_as_quotient(m as nat * p, e as int);
        assert(n.units() * p == (m as nat * p) * power(2, (e + 1074) as nat))
            by (nonlinear_arith)
            requires
                n.units() == m as nat * power(2, (e + 1074) as nat),
        ;
    }
    if e < 0 {
        let scale: u64 = ten_to(places);
        assert(m * scale <= 0x20_0000_0000_0000 * 1_000_000_000_000_000_000) by (nonlinear_arith)
            requires
                m < 0x20_0000_0000_0000,
                scale <= 1_000_000_000_000_000_000,
        ;
        let num: u128 = (m as u128) * (scale as u128);
        let t: u128 = halved_to_even(num, (-e) as u32);
        assert(t == scaled(n, places as nat));
        push_point(out, t, places, scale);
    } else {
        assert((m as nat * p) * power(2, e as nat) == m as nat * power(2, e as nat) * p)
            by (nonlinear_arith);
        push_whole(out, m, e as u32, places);
    }
    assert(out@ =~= old(out)@ + (sign_text(n) + point_text(
        scaled(n, places as nat),
        places as nat,
    )));
}

/// `n` written with `places` decimal places.
pub fn fixed(n: Number, places: u8) -> (text: String)
    requires
        places <= MAX_PLACES,
    ensures
        text@ == fixed_text(n, places as nat),
{
    let mut text = String::new();
    push_fixed(&mut text, n, places);
    assert(text@ =~= fixed_text(n, places as nat));
    text
}

} // verus!
