//! Running mean and variance of a stream, in one pass.
//!
//! The estimator keeps the number of values, their mean, and the sum of
//! the squares of their deviations from the mean. Each value moves the mean
//! by its share of the value's deviation, and adds to the sum the product
//! of the deviations from the old and from the new mean. No value is kept,
//! and nothing is computed as a small difference of large sums.
//!
//! Of the estimate this is proved: the count is the number of values; as
//! long as no two values are further apart than the numbers reach, the
//! mean lies within the range of the values and the variance is never
//! negative; and a stream of one finite value over and over has that
//! value for its mean and no variance. How near the mean is to the
//! arithmetic mean is the matter of the module `accuracy`.

use crate::arith::{
    difference, negated, of_count, one, product, quotient, square_root, sum, sum_of_units, zero,
    ONE_BITS,
};
use crate::nearest::{
    floor_magnitude, lemma_floor_exists, lemma_nearest_between, lemma_nearest_of_exact,
    lemma_signed, lemma_units_at, magnitude_at, nearest_magnitude, signed,
};
use crate::number::{
    lemma_least_unit, lemma_units_at_most_double, lemma_units_grow, lemma_units_step, units_of,
    units_per_one, Number, HIDDEN_BIT, INFINITY_MAGNITUDE,
};
use crate::rounding::{lemma_power_adds, lemma_power_positive, lemma_powers_of_two, power};
use vstd::prelude::*;

verus! {

/// An estimate of mean and variance: what an estimator holds.
pub struct Estimate {
    /// The number of values.
    pub count: u64,
    /// Their mean; zero before the first value.
    pub mean: Number,
    /// The sum of the squares of their deviations from the mean; zero
    /// before the first value.
    pub variance: Number,
}

impl Estimate {
    /// The estimate before the first value.
    pub open spec fn initial() -> Estimate {
        Estimate { count: 0, mean: zero(), variance: zero() }
    }

    /// The estimate after one more value.
    pub open spec fn stepped(self, value: Number) -> Estimate {
        let count = (self.count + 1) as u64;
        let delta = difference(value, self.mean);
        let mean = sum(self.mean, quotient(delta, of_count(count)));
        let delta2 = difference(value, mean);
        Estimate { count, mean, variance: sum(self.variance, product(delta, delta2)) }
    }

    /// The estimate after a whole stream.
    pub open spec fn of(values: Seq<Number>) -> Estimate
        decreases values.len(),
    {
        if values.len() == 0 {
            Estimate::initial()
        } else {
            Estimate::of(values.drop_last()).stepped(values.last())
        }
    }

    /// The variance of the values as a population: the sum of squared
    /// deviations over the count.
    pub open spec fn population_variance(self) -> Number {
        quotient(self.variance, of_count(self.count))
    }

    /// The variance of the values as a sample: the sum of squared
    /// deviations over one less than the count.
    pub open spec fn sample_variance_of(self) -> Number {
        quotient(self.variance, difference(of_count(self.count), one()))
    }
}

/// The estimator of mean and variance. It starts out empty and changes by
/// `update` alone; as long as it is empty, its mean and its sum of squared
/// deviations are zero.
#[derive(Clone, Copy, Debug)]
pub struct StreamingVariance {
    count: u64,
    mean: Number,
    variance: Number,
}

impl View for StreamingVariance {
    type V = Estimate;

    closed spec fn view(&self) -> Estimate {
        Estimate { count: self.count, mean: self.mean, variance: self.variance }
    }
}

impl StreamingVariance {
    #[verifier::type_invariant]
    closed spec fn zero_while_empty(self) -> bool {
        self.count == 0 ==> self.mean == zero() && self.variance == zero()
    }

    /// The estimator before the first value.
    pub fn new() -> (s: StreamingVariance)
        ensures
            s@ == Estimate::initial(),
    {
        StreamingVariance { count: 0, mean: Number { bits: 0 }, variance: Number { bits: 0 } }
    }

    /// Takes one more value into the estimate.
    pub fn update(&mut self, new_val: Number)
        requires
            old(self)@.count < u64::MAX,
        ensures
            final(self)@ == old(self)@.stepped(new_val),
    {
        self.count = self.count + 1;
        let delta = new_val.minus(self.mean);
        self.mean = self.mean.plus(delta.over(Number::from_count(self.count)));
        let delta2 = new_val.minus(self.mean);
        self.variance = self.variance.plus(delta.times(delta2));
    }

    /// The mean; zero before the first value.
    pub fn mean(&self) -> (m: Number)
        ensures
            m == self@.mean,
            self@.count == 0 ==> m == zero(),
    {
        proof {
            use_type_invariant(self);
        }
        self.mean
    }

    /// The variance of the values as a population; none before the first
    /// value.
    pub fn variance(&self) -> (v: Option<Number>)
        ensures
            v == if self@.count == 0 {
                None
            } else {
                Some(self@.population_variance())
            },
    {
        if self.count == 0 {
            None
        } else {
            Some(self.variance.over(Number::from_count(self.count)))
        }
    }

    /// The square root of the variance; none before the first value.
    pub fn standard_deviation(&self) -> (d: Option<Number>)
        ensures
            d == if self@.count == 0 {
                None
            } else {
                Some(square_root(self@.population_variance()))
            },
    {
        match self.variance() {
            Some(v) => Some(v.sqrt()),
            None => None,
        }
    }

    /// The variance of the values as a sample; none before the second
    /// value.
    pub fn sample_variance(&self) -> (v: Option<Number>)
        ensures
            v == if self@.count <= 1 {
                None
            } else {
                Some(self@.sample_variance_of())
            },
    {
        if self.count <= 1 {
            None
        } else {
            let less = Number::from_count(self.count).minus(Number { bits: ONE_BITS });
            Some(self.variance.over(less))
        }
    }

    /// The square root of the sample variance; none before the second
    /// value.
    pub fn sample_standard_deviation(&self) -> (d: Option<Number>)
        ensures
            d == if self@.count <= 1 {
                None
            } else {
                Some(square_root(self@.sample_variance_of()))
            },
    {
        match self.sample_variance() {
            Some(v) => Some(v.sqrt()),
            None => None,
        }
    }

    /// The number of values. An estimator without a value is as it was
    /// made.
    pub fn count(&self) -> (n: u64)
        ensures
            n == self@.count,
            n == 0 ==> self@ == Estimate::initial(),
    {
        proof {
            use_type_invariant(self);
        }
        self.count
    }
}

/// After `n` values the count is `n`.
pub proof fn lemma_count_is_length(values: Seq<Number>)
    requires
        values.len() <= u64::MAX,
    ensures
        Estimate::of(values).count == values.len(),
    decreases values.len(),
{
    if values.len() > 0 {
        lemma_count_is_length(values.drop_last());
    }
}

/// One more value is one more step of the estimator.
pub proof fn lemma_of_push(values: Seq<Number>, value: Number)
    ensures
        Estimate::of(values.push(value)) == Estimate::of(values).stepped(value),
{
    assert(values.push(value).drop_last() =~= values);
}

/// The pattern of two.
pub const TWO_BITS: u64 = 0x4000_0000_0000_0000;

/// The pattern of two to the power of 64, which is above every count.
pub const BEYOND_COUNTS_BITS: u64 = 0x43f0_0000_0000_0000;

/// Plus zero for a zero, and every other number as it is.
pub open spec fn settled(v: Number) -> Number {
    if v.magnitude() == 0 {
        zero()
    } else {
        v
    }
}

/// One holds as many units as go into one, two twice as many, and two to
/// the power of 64 as many times more.
proof fn lemma_landmarks()
    ensures
        units_of(ONE_BITS as nat) == units_per_one(),
        units_of(TWO_BITS as nat) == 2 * units_per_one(),
        units_of(BEYOND_COUNTS_BITS as nat) == 0x1_0000_0000_0000_0000 * units_per_one(),
        units_per_one() > 0,
{
    lemma_powers_of_two();
    lemma_power_positive(2, 1074);
    lemma_units_at(HIDDEN_BIT as nat, -52);
    lemma_units_at(HIDDEN_BIT as nat, -51);
    lemma_units_at(HIDDEN_BIT as nat, 12);
    assert(magnitude_at(HIDDEN_BIT as nat, -52) == ONE_BITS);
    assert(magnitude_at(HIDDEN_BIT as nat, -51) == TWO_BITS);
    assert(magnitude_at(HIDDEN_BIT as nat, 12) == BEYOND_COUNTS_BITS);
    lemma_power_adds(2, 52, 1022);
    lemma_power_adds(2, 52, 1023);
    lemma_power_adds(2, 52, 1086);
    lemma_power_adds(2, 64, 1074);
    assert(power(2, 1075) == 2 * power(2, 1074));
}

/// A count that is not zero is a finite number from one on, and from two
/// on where the count is.
pub proof fn lemma_count_is_a_number(count: u64)
    requires
        count >= 1,
    ensures
        !of_count(count).negative(),
        ONE_BITS <= of_count(count).magnitude() <= BEYOND_COUNTS_BITS,
        count >= 2 ==> TWO_BITS <= of_count(count).magnitude(),
{
    lemma_landmarks();
    let one = units_per_one();
    assert(one * 1 <= count * one <= (0x1_0000_0000_0000_0000 * one) * 1) by (nonlinear_arith)
        requires
            1 <= count < 0x1_0000_0000_0000_0000,
            one > 0,
    ;
    lemma_nearest_between(count as nat * one, 1, ONE_BITS as nat, BEYOND_COUNTS_BITS as nat);
    if count >= 2 {
        assert((2 * one) * 1 <= count * one) by (nonlinear_arith)
            requires
                2 <= count,
                one > 0,
        ;
        lemma_nearest_between(count as nat * one, 1, TWO_BITS as nat, BEYOND_COUNTS_BITS as nat);
    }
}

/// One less than a count from two on is a finite number above zero.
proof fn lemma_less_than_count(count: u64)
    requires
        count >= 2,
    ensures
        !difference(of_count(count), one()).negative(),
        ONE_BITS <= difference(of_count(count), one()).magnitude() <= BEYOND_COUNTS_BITS,
{
    lemma_landmarks();
    lemma_count_is_a_number(count);
    let n = of_count(count);
    let x = n.magnitude();
    let unit = units_per_one();
    if TWO_BITS < x {
        lemma_units_grow(TWO_BITS as nat, x);
    }
    if x < BEYOND_COUNTS_BITS {
        lemma_units_grow(x, BEYOND_COUNTS_BITS as nat);
    }
    assert(n.units() == units_of(x));
    assert(negated(one()).units() == unit);
    let rest = (n.units() - unit) as nat;
    assert(units_of(ONE_BITS as nat) * 1 <= rest <= units_of(BEYOND_COUNTS_BITS as nat) * 1);
    lemma_nearest_between(rest, 1, ONE_BITS as nat, BEYOND_COUNTS_BITS as nat);
}

/// A finite number less zero, and over one, is the number; zero and the
/// number is the number, settled; a number less itself is zero.
pub proof fn lemma_first_value(v: Number)
    requires
        v.finite(),
    ensures
        difference(v, zero()) == v,
        quotient(v, of_count(1)) == v,
        sum(zero(), v) == settled(v),
        difference(v, v) == zero(),
{
    lemma_landmarks();
    lemma_count_is_a_number(1);
    let x = v.magnitude();
    assert(v.units() == units_of(x));
    lemma_nearest_of_exact(x, 1);
    assert(units_of(x) * 1 == units_of(x));
    lemma_units_step(0);
    if x > 0 {
        lemma_units_grow(0, x);
    }
    let unit = units_per_one();
    assert(of_count(1).magnitude() == ONE_BITS) by {
        assert(1 * unit == units_of(ONE_BITS as nat) * 1) by (nonlinear_arith)
            requires
                units_of(ONE_BITS as nat) == unit,
        ;
        lemma_nearest_of_exact(ONE_BITS as nat, 1);
    }
    assert(of_count(1).units() == unit);
    lemma_nearest_of_exact(x, unit);
}

/// A finite number times a zero is a zero, and zero and a zero is zero.
proof fn lemma_zero_product(a: Number, z: Number)
    requires
        a.finite(),
        z.magnitude() == 0,
    ensures
        product(a, z).magnitude() == 0,
        sum(zero(), product(a, z)) == zero(),
{
    lemma_units_step(0);
    lemma_power_positive(2, 1074);
    assert(z.units() == units_of(0));
    assert(a.units() * z.units() == 0) by (nonlinear_arith)
        requires
            z.units() == 0,
    ;
    crate::arith::lemma_nearest_of_nothing(units_per_one());
    let p = product(a, z);
    assert(p.units() == units_of(0));
}

/// With a zero for the deviation, a step changes neither a settled mean
/// nor a sum of squared deviations that is zero.
proof fn lemma_step_without_deviation(v: Number, mean: Number, count: u64)
    requires
        v.finite(),
        mean == settled(v),
        count >= 1,
    ensures
        ({
            let delta = difference(v, mean);
            let moved = sum(mean, quotient(delta, of_count(count)));
            let delta2 = difference(v, moved);
            &&& moved == mean
            &&& sum(zero(), product(delta, delta2)) == zero()
        }),
{
    lemma_landmarks();
    lemma_count_is_a_number(count);
    lemma_first_value(v);
    let delta = difference(v, mean);
    assert(delta.magnitude() == 0 && delta.finite()) by {
        lemma_nearest_of_exact(0, 1);
    }
    let share = quotient(delta, of_count(count));
    let n = of_count(count);
    assert(share.magnitude() == 0) by {
        assert(0 * units_per_one() == 0) by (nonlinear_arith);
        lemma_units_step(0);
        lemma_units_grow(0, n.magnitude());
        crate::arith::lemma_nearest_of_nothing(n.units());
    }
    let x = mean.magnitude();
    assert(mean.units() == units_of(x));
    lemma_units_step(0);
    if x > 0 {
        lemma_units_grow(0, x);
    }
    lemma_nearest_of_exact(x, 1);
    assert(units_of(x) * 1 == units_of(x));
    assert(sum(mean, share) == mean);
    let delta2 = difference(v, mean);
    lemma_zero_product(delta, delta2);
}

/// After one or more copies of a finite value, the mean is the value,
/// settled, and the sum of squared deviations is zero.
pub proof fn lemma_constant_stream(v: Number, n: nat)
    requires
        v.finite(),
        1 <= n <= u64::MAX,
    ensures
        Estimate::of(Seq::new(n, |i: int| v)).count == n,
        Estimate::of(Seq::new(n, |i: int| v)).mean == settled(v),
        Estimate::of(Seq::new(n, |i: int| v)).variance == zero(),
    decreases n,
{
    let stream = Seq::new(n, |i: int| v);
    let front = Seq::new((n - 1) as nat, |i: int| v);
    assert(stream.drop_last() =~= front);
    assert(stream.last() == v);
    lemma_first_value(v);
    if n == 1 {
        assert(Estimate::of(front) == Estimate::initial());
        let delta = difference(v, zero());
        let mean = sum(zero(), quotient(delta, of_count(1)));
        assert(mean == settled(v));
        let delta2 = difference(v, mean);
        assert(delta2.magnitude() == 0) by {
            lemma_nearest_of_exact(0, 1);
        }
        lemma_zero_product(delta, delta2);
    } else {
        lemma_constant_stream(v, (n - 1) as nat);
        lemma_step_without_deviation(v, settled(v), n as u64);
    }
}

/// The sample variance of two or more copies of one finite value is zero.
pub proof fn lemma_constant_stream_has_no_variance(v: Number, n: nat)
    requires
        v.finite(),
        2 <= n <= u64::MAX,
    ensures
        Estimate::of(Seq::new(n, |i: int| v)).sample_variance_of() == zero(),
{
    lemma_constant_stream(v, n);
    lemma_less_than_count(n as u64);
    let less = difference(of_count(n as u64), one());
    lemma_units_step(0);
    lemma_units_grow(0, less.magnitude());
    assert(0 * units_per_one() == 0) by (nonlinear_arith);
    crate::arith::lemma_nearest_of_nothing(less.units());
}

/// The pattern of two to the power of 1023, the greatest power of two
/// among the numbers.
pub const WIDEST_BITS: u64 = 0x7fe0_0000_0000_0000;

/// Two to the power of 1023 in units: the widest range of values whose
/// differences are all finite.
pub open spec fn widest_range() -> nat {
    power(2, 2097)
}

/// The magnitude of two to the power of 1023 holds the widest range.
proof fn lemma_widest()
    ensures
        units_of(WIDEST_BITS as nat) == widest_range(),
{
    lemma_powers_of_two();
    lemma_units_at(HIDDEN_BIT as nat, 971);
    assert(magnitude_at(HIDDEN_BIT as nat, 971) == WIDEST_BITS);
    lemma_power_adds(2, 52, 2045);
}

/// A quantity of no more than the widest range rounds to a finite
/// magnitude, and its share in a count from two on to a magnitude of no
/// more units than the quantity.
proof fn lemma_share_is_no_more(s: nat, count: u64)
    requires
        1 <= s <= widest_range(),
        count >= 2,
    ensures
        ({
            let whole = nearest_magnitude(s, 1);
            let share = nearest_magnitude(
                units_of(whole) * units_per_one(),
                of_count(count).units(),
            );
            &&& 1 <= whole <= WIDEST_BITS
            &&& share <= WIDEST_BITS
            &&& units_of(share) <= s
        }),
{
    lemma_widest();
    lemma_landmarks();
    lemma_count_is_a_number(count);
    lemma_units_step(0);
    lemma_units_step(1);
    lemma_least_unit();
    let whole = nearest_magnitude(s, 1);
    assert(units_of(1) * 1 <= s <= units_of(WIDEST_BITS as nat) * 1);
    lemma_nearest_between(s, 1, 1, WIDEST_BITS as nat);
    lemma_floor_exists(s, 1);
    let floor = floor_magnitude(s, 1);
    assert(floor < INFINITY_MAGNITUDE);
    assert(units_of(floor) * 1 == units_of(floor));
    assert(units_of(floor + 1) * 1 == units_of(floor + 1));
    assert(floor >= 1);
    assert(whole == floor || whole == floor + 1);
    lemma_units_at_most_double(floor);
    lemma_units_step(floor);
    let broken = units_of(whole);
    assert(broken <= 2 * units_of(floor));
    let n = of_count(count);
    let parts = n.units();
    let unit = units_per_one();
    assert(parts == units_of(n.magnitude()));
    if TWO_BITS < n.magnitude() {
        lemma_units_grow(TWO_BITS as nat, n.magnitude());
    }
    assert(parts >= 2 * unit);
    assert(units_of(0) * parts == 0) by (nonlinear_arith)
        requires
            units_of(0) == 0,
    ;
    assert(broken * unit <= units_of(floor) * parts) by (nonlinear_arith)
        requires
            broken <= 2 * units_of(floor),
            parts >= 2 * unit,
            unit > 0,
    ;
    lemma_nearest_between(broken * unit, parts, 0, floor);
    let share = nearest_magnitude(broken * unit, parts);
    if share < floor {
        lemma_units_grow(share, floor);
    }
    if floor < WIDEST_BITS {
        lemma_units_grow(floor, WIDEST_BITS as nat);
    } else if floor > WIDEST_BITS {
        lemma_units_grow(WIDEST_BITS as nat, floor);
    }
}

/// The share that a count from two on gives of the difference of two
/// finite numbers in the widest range is finite, has the sign of the
/// difference, and is no more than the difference.
pub proof fn lemma_share_of_difference(m: Number, x: Number, count: u64)
    requires
        m.finite(),
        x.finite(),
        -widest_range() <= x.signed_units() - m.signed_units() <= widest_range(),
        count >= 2,
    ensures
        ({
            let share = quotient(difference(x, m), of_count(count));
            let s = x.signed_units() - m.signed_units();
            &&& share.finite()
            &&& s >= 0 ==> 0 <= share.signed_units() <= s
            &&& s <= 0 ==> s <= share.signed_units() <= 0
        }),
{
    lemma_landmarks();
    lemma_count_is_a_number(count);
    lemma_units_step(0);
    let s = x.signed_units() - m.signed_units();
    let back = negated(m);
    assert(back.magnitude() == m.magnitude());
    assert(back.units() == m.units());
    assert(back.signed_units() == -m.signed_units());
    let delta = difference(x, m);
    assert(delta == sum_of_units(x.negative(), x.units(), back.negative(), back.units()));
    let n = of_count(count);
    let parts = n.units();
    assert(parts == units_of(n.magnitude()));
    lemma_units_grow(0, n.magnitude());
    let share = quotient(delta, n);
    if s == 0 {
        lemma_signed(x.negative() && back.negative(), 0);
        assert(delta.units() * units_per_one() == 0) by (nonlinear_arith)
            requires
                delta.units() == 0,
        ;
        crate::arith::lemma_nearest_of_nothing(parts);
        lemma_signed(delta.negative() != n.negative(), 0);
    } else {
        let size: nat = if s > 0 {
            s as nat
        } else {
            (-s) as nat
        };
        lemma_share_is_no_more(size, count);
        let whole = nearest_magnitude(size, 1);
        lemma_signed(s < 0, whole);
        assert(delta == signed(s < 0, whole));
        let part = nearest_magnitude(units_of(whole) * units_per_one(), parts);
        lemma_signed(s < 0, part);
        assert(share == signed(s < 0, part));
    }
}

/// A sum whose exact value lies between two finite numbers lies between
/// them after rounding too, and is finite.
proof fn lemma_sum_within(a: Number, b: Number, low: Number, high: Number)
    requires
        a.finite(),
        b.finite(),
        low.finite(),
        high.finite(),
        low.signed_units() <= a.signed_units() + b.signed_units() <= high.signed_units(),
    ensures
        sum(a, b).finite(),
        low.signed_units() <= sum(a, b).signed_units() <= high.signed_units(),
{
    lemma_units_step(0);
    let t = a.signed_units() + b.signed_units();
    let r = sum(a, b);
    assert(r == sum_of_units(a.negative(), a.units(), b.negative(), b.units()));
    assert(low.units() == units_of(low.magnitude()));
    assert(high.units() == units_of(high.magnitude()));
    if t == 0 {
        lemma_signed(a.negative() && b.negative(), 0);
    } else {
        let size: nat = if t > 0 {
            t as nat
        } else {
            (-t) as nat
        };
        let outer = if t > 0 {
            high
        } else {
            low
        };
        let inner = if t > 0 {
            low
        } else {
            high
        };
        let most = outer.magnitude();
        let least: nat = if (t > 0 && inner.signed_units() > 0) || (t < 0 && inner.signed_units()
            < 0) {
            inner.magnitude()
        } else {
            0
        };
        assert(units_of(least) <= size <= units_of(most));
        if most < least {
            lemma_units_grow(most, least);
        }
        assert(units_of(least) * 1 == units_of(least));
        assert(units_of(most) * 1 == units_of(most));
        lemma_nearest_between(size, 1, least, most);
        let rounded = nearest_magnitude(size, 1);
        lemma_signed(t < 0, rounded);
        assert(r == signed(t < 0, rounded));
        if least < rounded {
            lemma_units_grow(least, rounded);
        }
        if rounded < most {
            lemma_units_grow(rounded, most);
        }
    }
}

/// From the second value on, a step takes the mean no further than to
/// the value: the new mean lies between the old mean and the value.
pub proof fn lemma_step_stays_between(m: Number, x: Number, count: u64)
    requires
        m.finite(),
        x.finite(),
        -widest_range() <= x.signed_units() - m.signed_units() <= widest_range(),
        count >= 2,
    ensures
        ({
            let moved = sum(m, quotient(difference(x, m), of_count(count)));
            &&& moved.finite()
            &&& m.signed_units() <= x.signed_units() ==> m.signed_units() <= moved.signed_units()
                <= x.signed_units()
            &&& x.signed_units() <= m.signed_units() ==> x.signed_units() <= moved.signed_units()
                <= m.signed_units()
        }),
{
    lemma_share_of_difference(m, x, count);
    let share = quotient(difference(x, m), of_count(count));
    if m.signed_units() <= x.signed_units() {
        lemma_sum_within(m, share, m, x);
    } else {
        lemma_sum_within(m, share, x, m);
    }
}

/// The mean of a stream lies within the range of its values: where every
/// value is finite and holds between `low` and `high` units, and the two
/// are no further apart than the widest range, so does the mean.
pub proof fn lemma_mean_is_within_the_values(values: Seq<Number>, low: int, high: int)
    requires
        1 <= values.len() <= u64::MAX,
        high - low <= widest_range(),
        forall|i: int|
            0 <= i < values.len() ==> values[i].finite() && low <= values[i].signed_units()
                <= high,
    ensures
        Estimate::of(values).mean.finite(),
        low <= Estimate::of(values).mean.signed_units() <= high,
    decreases values.len(),
{
    let front = values.drop_last();
    let v = values.last();
    let before = Estimate::of(front);
    lemma_count_is_length(front);
    if values.len() == 1 {
        lemma_first_value(v);
        lemma_units_step(0);
        assert(before == Estimate::initial());
        assert(before.stepped(v).mean == settled(v));
    } else {
        lemma_mean_is_within_the_values(front, low, high);
        lemma_step_stays_between(before.mean, v, values.len() as u64);
    }
}

/// From plus zero up to plus infinity: neither negative nor a NaN.
pub open spec fn zero_or_more(v: Number) -> bool {
    !v.negative() && !v.nan()
}

/// The difference of two finite numbers in the widest range is finite and
/// has the sign of the exact difference; it is a zero where there is none.
pub proof fn lemma_difference_sign(a: Number, b: Number)
    requires
        a.finite(),
        b.finite(),
        -widest_range() <= a.signed_units() - b.signed_units() <= widest_range(),
    ensures
        difference(a, b).finite(),
        a.signed_units() > b.signed_units() ==> !difference(a, b).negative() && difference(
            a,
            b,
        ).magnitude() > 0,
        a.signed_units() < b.signed_units() ==> difference(a, b).negative() && difference(
            a,
            b,
        ).magnitude() > 0,
        a.signed_units() == b.signed_units() ==> difference(a, b).magnitude() == 0,
{
    lemma_units_step(0);
    let s = a.signed_units() - b.signed_units();
    let back = negated(b);
    assert(back.magnitude() == b.magnitude());
    assert(back.units() == b.units());
    let delta = difference(a, b);
    assert(delta == sum_of_units(a.negative(), a.units(), back.negative(), back.units()));
    if s == 0 {
        lemma_signed(a.negative() && back.negative(), 0);
    } else {
        let size: nat = if s > 0 {
            s as nat
        } else {
            (-s) as nat
        };
        lemma_share_is_no_more(size, 2);
        lemma_signed(s < 0, nearest_magnitude(size, 1));
    }
}

/// The product of two finite numbers of which neither is on the other
/// side of zero is not below zero: it is a zero, or it is not negative.
proof fn lemma_product_of_one_side(a: Number, b: Number)
    requires
        a.finite(),
        b.finite(),
        a.magnitude() == 0 || b.magnitude() == 0 || a.negative() == b.negative(),
    ensures
        !product(a, b).nan(),
        product(a, b).magnitude() == 0 || !product(a, b).negative(),
{
    lemma_units_step(0);
    lemma_power_positive(2, 1074);
    let unit = units_per_one();
    let exact = a.units() * b.units();
    lemma_floor_exists(exact, unit);
    let rounded = nearest_magnitude(exact, unit);
    assert(rounded <= INFINITY_MAGNITUDE);
    lemma_signed(a.negative() != b.negative(), rounded);
    if a.magnitude() == 0 || b.magnitude() == 0 {
        assert(a.units() == units_of(a.magnitude()));
        assert(b.units() == units_of(b.magnitude()));
        assert(exact == 0) by (nonlinear_arith)
            requires
                exact == a.units() * b.units(),
                a.units() == 0 || b.units() == 0,
        ;
        crate::arith::lemma_nearest_of_nothing(unit);
    }
}

/// What is not below zero adds to a number from plus zero on without
/// taking it below plus zero.
proof fn lemma_sum_stays_zero_or_more(v: Number, p: Number)
    requires
        zero_or_more(v),
        !p.nan(),
        p.magnitude() == 0 || !p.negative(),
    ensures
        zero_or_more(sum(v, p)),
{
    lemma_units_step(0);
    if v.finite() && p.finite() {
        assert(p.units() == units_of(p.magnitude()));
        let total = v.units() + if p.magnitude() == 0 {
            0
        } else {
            p.units()
        };
        assert(sum(v, p) == sum_of_units(v.negative(), v.units(), p.negative(), p.units()));
        if total == 0 {
            lemma_signed(v.negative() && p.negative(), 0);
        } else {
            lemma_floor_exists(total, 1);
            lemma_signed(false, nearest_magnitude(total, 1));
        }
    }
}

/// A number from plus zero on, over a finite number above zero, is a
/// number from plus zero on.
proof fn lemma_share_stays_zero_or_more(v: Number, n: Number)
    requires
        zero_or_more(v),
        n.finite(),
        !n.negative(),
        n.magnitude() > 0,
    ensures
        zero_or_more(quotient(v, n)),
{
    lemma_units_step(0);
    lemma_units_grow(0, n.magnitude());
    assert(n.units() == units_of(n.magnitude()));
    if v.finite() {
        lemma_floor_exists(v.units() * units_per_one(), n.units());
        lemma_signed(false, nearest_magnitude(v.units() * units_per_one(), n.units()));
    } else {
        lemma_signed(false, INFINITY_MAGNITUDE as nat);
    }
}

/// From the second value on, a step adds to the sum of squared deviations
/// what is not below zero.
proof fn lemma_step_adds_no_less(m: Number, x: Number, variance: Number, count: u64)
    requires
        m.finite(),
        x.finite(),
        -widest_range() <= x.signed_units() - m.signed_units() <= widest_range(),
        count >= 2,
        zero_or_more(variance),
    ensures
        ({
            let delta = difference(x, m);
            let moved = sum(m, quotient(delta, of_count(count)));
            zero_or_more(sum(variance, product(delta, difference(x, moved))))
        }),
{
    let delta = difference(x, m);
    let moved = sum(m, quotient(delta, of_count(count)));
    lemma_step_stays_between(m, x, count);
    lemma_difference_sign(x, m);
    lemma_difference_sign(x, moved);
    lemma_product_of_one_side(delta, difference(x, moved));
    lemma_sum_stays_zero_or_more(variance, product(delta, difference(x, moved)));
}

/// The sum of squared deviations is never negative and never fails to be
/// a number, and neither is the variance, as a population or as a sample:
/// where every value is finite and holds between `low` and `high` units,
/// and the two are no further apart than the widest range, each of the
/// three lies between plus zero and plus infinity.
pub proof fn lemma_variance_is_not_negative(values: Seq<Number>, low: int, high: int)
    requires
        values.len() <= u64::MAX,
        high - low <= widest_range(),
        forall|i: int|
            0 <= i < values.len() ==> values[i].finite() && low <= values[i].signed_units()
                <= high,
    ensures
        zero_or_more(Estimate::of(values).variance),
        values.len() >= 1 ==> zero_or_more(Estimate::of(values).population_variance()),
        values.len() >= 2 ==> zero_or_more(Estimate::of(values).sample_variance_of()),
    decreases values.len(),
{
    lemma_count_is_length(values);
    if values.len() >= 1 {
        let front = values.drop_last();
        let v = values.last();
        let before = Estimate::of(front);
        lemma_count_is_length(front);
        lemma_variance_is_not_negative(front, low, high);
        if values.len() == 1 {
            lemma_first_value(v);
            assert(before == Estimate::initial());
            let moved = settled(v);
            assert(before.stepped(v).mean == moved);
            let apart = difference(v, moved);
            assert(apart.magnitude() == 0) by {
                lemma_nearest_of_exact(0, 1);
            }
            lemma_zero_product(v, apart);
        } else {
            lemma_mean_is_within_the_values(front, low, high);
            lemma_step_adds_no_less(before.mean, v, before.variance, values.len() as u64);
        }
        let after = Estimate::of(values);
        lemma_count_is_a_number(after.count);
        lemma_share_stays_zero_or_more(after.variance, of_count(after.count));
        if values.len() >= 2 {
            lemma_less_than_count(after.count);
            lemma_share_stays_zero_or_more(
                after.variance,
                difference(of_count(after.count), one()),
            );
        }
    }
}

} // verus!
