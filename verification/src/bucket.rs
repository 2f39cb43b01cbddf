//! Tallying a stream into the buckets of a histogram.
//!
//! Each value has a position on the value axis, measured in buckets from
//! the lower end. On a linear axis the position is the value's distance
//! from the least value in bucket widths. On a logarithmic axis it is the
//! share that the logarithm of the value's argument has in the logarithm
//! of the span, times the number of buckets; the arguments and the span
//! are computed here, their natural logarithms are handed in, or taken
//! by a function that is handed in. Positions are rounded down to bucket
//! indices and counted.

use crate::arith::{difference, negated, of_count, one, product, quotient, sum, ONE_BITS};
use crate::number::Number;
use crate::order::{
    at_most, lemma_floor_keeps_order, lemma_negation_turns_order, lemma_product_keeps_order,
    lemma_quotient_keeps_order, lemma_sum_keeps_order, positive,
};
use crate::streaming_variance::lemma_count_is_a_number;
use crate::plot::Binning;
use vstd::prelude::*;

verus! {

/// Why a stream cannot be tallied.
#[derive(Clone, Copy, Debug, PartialEq, Eq, Structural)]
pub enum BucketError {
    /// There are values and no bucket.
    NoBuckets,
    /// The value axis is logarithmic and the logarithms are missing, or
    /// there is not one logarithm per value.
    LogarithmsMismatch,
}

/// The natural logarithms that a logarithmic value axis takes.
#[derive(Debug)]
pub struct Logarithms {
    /// The logarithm of the span of the range.
    pub span: Number,
    /// The logarithm of the argument of each value, in the order of the
    /// values.
    pub values: Vec<Number>,
}

pub struct LogarithmsView {
    pub span: Number,
    pub values: Seq<Number>,
}

impl View for Logarithms {
    type V = LogarithmsView;

    open spec fn view(&self) -> LogarithmsView {
        LogarithmsView { span: self.span, values: self.values@ }
    }
}

/// The pattern of 1.000001, by which the greatest value is widened so that
/// it falls inside the last bucket and not on its upper edge.
pub const WIDENING_BITS: u64 = 0x3ff0_0001_0c6f_7a0b;

/// The width of a bucket on a linear axis: the range from the least value
/// to the widened greatest value, over the number of buckets.
pub open spec fn linear_width(num_buckets: u64, min: Number, max: Number) -> Number {
    quotient(
        difference(product(max, Number { bits: WIDENING_BITS }), min),
        of_count(num_buckets),
    )
}

/// The position of a value on a linear axis: its distance from the least
/// value, in bucket widths.
pub open spec fn linear_position(value: Number, num_buckets: u64, min: Number, max: Number) -> Number {
    quotient(difference(value, min), linear_width(num_buckets, min, max))
}

/// The positions of the values on a linear axis.
pub fn linear_positions(values: &Vec<Number>, num_buckets: u64, min: Number, max: Number) -> (positions:
    Vec<Number>)
    ensures
        positions.len() == values.len(),
        forall|i: int|
            0 <= i < values.len() ==> positions[i] == linear_position(
                values[i],
                num_buckets,
                min,
                max,
            ),
{
    let width = max.times(Number { bits: WIDENING_BITS }).minus(min).over(
        Number::from_count(num_buckets),
    );
    let mut positions: Vec<Number> = Vec::new();
    let mut i: usize = 0;
    while i < values.len()
        invariant
            i <= values.len(),
            positions.len() == i,
            width == linear_width(num_buckets, min, max),
            forall|k: int|
                0 <= k < i ==> positions[k] == linear_position(values[k], num_buckets, min, max),
        decreases values.len() - i,
    {
        positions.push(values[i].minus(min).over(width));
        i = i + 1;
    }
    positions
}

/// The span of a range: its extent and one more. Its logarithm is what the
/// logarithms of a logarithmic axis are measured by.
pub open spec fn span(min: Number, max: Number) -> Number {
    sum(difference(max, min), one())
}

/// What the logarithm is taken of for a value on a logarithmic axis: its
/// distance from the least value and one more or, where the axis is cut
/// from its upper end, its distance from the greatest value and one more.
pub open spec fn log_argument(value: Number, min: Number, max: Number, binning: Binning) -> Number {
    if binning == Binning::ReverseLogarithmic {
        difference(sum(max, one()), value)
    } else {
        sum(difference(value, min), one())
    }
}

/// The position of a value on a logarithmic axis, from the logarithm of its
/// argument and the logarithm of the span: the share of the one in the
/// other, in buckets; counted down from the upper end where the axis is cut
/// from there.
pub open spec fn log_position(
    value_log: Number,
    span_log: Number,
    num_buckets: u64,
    binning: Binning,
) -> Number {
    if binning == Binning::ReverseLogarithmic {
        product(of_count(num_buckets), difference(one(), quotient(value_log, span_log)))
    } else {
        product(quotient(value_log, span_log), of_count(num_buckets))
    }
}

/// The span of a range.
pub fn span_of(min: Number, max: Number) -> (r: Number)
    ensures
        r == span(min, max),
{
    max.minus(min).plus(Number { bits: ONE_BITS })
}

/// The arguments of the values on a logarithmic axis: what the logarithms
/// are to be taken of.
pub fn log_arguments(values: &Vec<Number>, min: Number, max: Number, binning: Binning) -> (arguments:
    Vec<Number>)
    ensures
        arguments.len() == values.len(),
        forall|i: int|
            0 <= i < values.len() ==> arguments[i] == log_argument(values[i], min, max, binning),
{
    let unit = Number { bits: ONE_BITS };
    let mut arguments: Vec<Number> = Vec::new();
    let mut i: usize = 0;
    while i < values.len()
        invariant
            i <= values.len(),
            arguments.len() == i,
            unit == one(),
            forall|k: int|
                0 <= k < i ==> arguments[k] == log_argument(values[k], min, max, binning),
        decreases values.len() - i,
    {
        let argument = match binning {
            Binning::ReverseLogarithmic => max.plus(unit).minus(values[i]),
            _ => values[i].minus(min).plus(unit),
        };
        arguments.push(argument);
        i = i + 1;
    }
    arguments
}

/// The positions on a logarithmic axis that the logarithms stand for.
fn log_positions(logs: &Logarithms, num_buckets: u64, binning: Binning) -> (positions: Vec<Number>)
    ensures
        positions.len() == logs.values.len(),
        forall|i: int|
            0 <= i < logs.values.len() ==> positions[i] == log_position(
                logs.values[i],
                logs.span,
                num_buckets,
                binning,
            ),
{
    let unit = Number { bits: ONE_BITS };
    let buckets = Number::from_count(num_buckets);
    let mut positions: Vec<Number> = Vec::new();
    let mut i: usize = 0;
    while i < logs.values.len()
        invariant
            i <= logs.values.len(),
            positions.len() == i,
            unit == one(),
            buckets == of_count(num_buckets),
            forall|k: int|
                0 <= k < i ==> positions[k] == log_position(
                    logs.values[k],
                    logs.span,
                    num_buckets,
                    binning,
                ),
        decreases logs.values.len() - i,
    {
        let share = logs.values[i].over(logs.span);
        let position = match binning {
            Binning::ReverseLogarithmic => buckets.times(unit.minus(share)),
            _ => share.times(buckets),
        };
        positions.push(position);
        i = i + 1;
    }
    positions
}

/// A range without extent: the least value is not below the greatest.
pub open spec fn degenerate(min: Number, max: Number) -> bool {
    !min.below(max)
}

/// The bucket of a position: the position rounded down. A position at or
/// beyond the upper end belongs to the last bucket, one below the lower end
/// or without a place to the first; in a degenerate range everything
/// belongs to the first.
pub open spec fn slot(position: Number, num_buckets: nat, min: Number, max: Number) -> nat
    recommends
        num_buckets > 0,
{
    if degenerate(min, max) {
        0
    } else if position.floor_count() >= num_buckets {
        (num_buckets - 1) as nat
    } else {
        position.floor_count() as nat
    }
}

/// Every position belongs to one of the buckets, whatever it is.
pub proof fn lemma_slot_is_a_bucket(position: Number, num_buckets: nat, min: Number, max: Number)
    requires
        num_buckets > 0,
    ensures
        slot(position, num_buckets, min, max) < num_buckets,
{
}

/// How many of `positions` belong to bucket `j`.
pub open spec fn tally(
    positions: Seq<Number>,
    num_buckets: nat,
    min: Number,
    max: Number,
    j: nat,
) -> nat
    decreases positions.len(),
{
    if positions.len() == 0 {
        0
    } else if slot(positions.last(), num_buckets, min, max) == j {
        tally(positions.drop_last(), num_buckets, min, max, j) + 1
    } else {
        tally(positions.drop_last(), num_buckets, min, max, j)
    }
}

/// The sum of all counts.
pub open spec fn total(counts: Seq<u64>) -> nat
    decreases counts.len(),
{
    if counts.len() == 0 {
        0
    } else {
        total(counts.drop_last()) + counts.last() as nat
    }
}

/// Whether the range has extent: the least value is below the greatest.
pub fn has_extent(min: Number, max: Number) -> (r: bool)
    ensures
        r == !degenerate(min, max),
{
    min.less_than(max)
}

/// The bucket that a position belongs to; none where there is no bucket.
pub fn bucket_index(position: Number, num_buckets: usize, min: Number, max: Number) -> (index:
    Option<usize>)
    ensures
        num_buckets == 0 <==> index is None,
        index matches Some(i) ==> i == slot(position, num_buckets as nat, min, max) && i
            < num_buckets,
{
    if num_buckets == 0 {
        None
    } else if !has_extent(min, max) {
        Some(0)
    } else {
        let floor: u64 = position.floor_u64();
        if floor >= num_buckets as u64 {
            Some(num_buckets - 1)
        } else {
            Some(floor as usize)
        }
    }
}

/// No count is above the sum of all counts.
proof fn lemma_total_bounds_each(counts: Seq<u64>, k: int)
    requires
        0 <= k < counts.len(),
    ensures
        counts[k] <= total(counts),
    decreases counts.len(),
{
    if k < counts.len() - 1 {
        lemma_total_bounds_each(counts.drop_last(), k);
    }
}

/// One more in one bucket is one more in all.
proof fn lemma_total_after_increment(counts: Seq<u64>, k: int, next: u64)
    requires
        0 <= k < counts.len(),
        next == counts[k] + 1,
    ensures
        total(counts.update(k, next)) == total(counts) + 1,
    decreases counts.len(),
{
    let after = counts.update(k, next);
    if k < counts.len() - 1 {
        lemma_total_after_increment(counts.drop_last(), k, next);
        assert(after.drop_last() =~= counts.drop_last().update(k, next));
    } else {
        assert(after.drop_last() =~= counts.drop_last());
    }
}

/// Counts the positions bucket by bucket.
///
/// Every position is counted in exactly one bucket, so the counts add up to
/// the number of positions. Without a bucket there is nowhere to count: that
/// is an error unless there is nothing to count.
pub fn tally_positions(positions: &Vec<Number>, num_buckets: usize, min: Number, max: Number) -> (r:
    Result<Vec<u64>, BucketError>)
    ensures
        r is Err <==> num_buckets == 0 && positions.len() > 0,
        r matches Err(e) ==> e == BucketError::NoBuckets,
        r matches Ok(counts) ==> {
            &&& counts.len() == num_buckets
            &&& forall|j: int|
                0 <= j < num_buckets ==> counts[j] == tally(
                    positions@,
                    num_buckets as nat,
                    min,
                    max,
                    j as nat,
                )
            &&& total(counts@) == positions.len()
        },
{
    if num_buckets == 0 {
        if positions.len() > 0 {
            return Err(BucketError::NoBuckets);
        }
        return Ok(Vec::new());
    }
    let mut counts: Vec<u64> = Vec::new();
    let mut j: usize = 0;
    while j < num_buckets
        invariant
            j <= num_buckets,
            counts.len() == j,
            forall|k: int| 0 <= k < j ==> counts[k] == 0,
            total(counts@) == 0,
        decreases num_buckets - j,
    {
        let ghost before = counts@;
        counts.push(0);
        assert(counts@.drop_last() =~= before);
        j = j + 1;
    }
    let mut i: usize = 0;
    while i < positions.len()
        invariant
            i <= positions.len(),
            num_buckets > 0,
            counts.len() == num_buckets,
            forall|j: int|
                0 <= j < num_buckets ==> counts[j] == tally(
                    positions@.take(i as int),
                    num_buckets as nat,
                    min,
                    max,
                    j as nat,
                ),
            total(counts@) == i,
        decreases positions.len() - i,
    {
        let k: usize = bucket_index(positions[i], num_buckets, min, max).unwrap();
        let ghost before = counts@;
        proof {
            lemma_total_bounds_each(before, k as int);
            assert(positions@.take(i + 1).drop_last() =~= positions@.take(i as int));
        }
        let next: u64 = counts[k] + 1;
        counts.set(k, next);
        proof {
            lemma_total_after_increment(before, k as int, next);
        }
        i = i + 1;
    }
    assert(positions@.take(positions.len() as int) =~= positions@);
    Ok(counts)
}

/// The positions of the values on the value axis: from the values on a
/// linear axis, from the logarithms on a logarithmic one.
pub open spec fn positions_of(
    values: Seq<Number>,
    num_buckets: usize,
    min: Number,
    max: Number,
    binning: Binning,
    logs: Option<LogarithmsView>,
) -> Seq<Number> {
    if binning == Binning::Linear {
        Seq::new(values.len(), |i: int| linear_position(values[i], num_buckets as u64, min, max))
    } else {
        Seq::new(
            values.len(),
            |i: int|
                log_position(
                    logs.unwrap().values[i],
                    logs.unwrap().span,
                    num_buckets as u64,
                    binning,
                ),
        )
    }
}

/// The logarithms that were handed in, if any.
pub open spec fn logs_view(logs: Option<&Logarithms>) -> Option<LogarithmsView> {
    match logs {
        Some(l) => Some(l@),
        None => None,
    }
}

/// The first reason, if any, why the values cannot be tallied.
pub open spec fn bucket_defect(
    values: Seq<Number>,
    num_buckets: usize,
    binning: Binning,
    logs: Option<LogarithmsView>,
) -> Option<BucketError> {
    if binning != Binning::Linear && (logs is None || logs.unwrap().values.len()
        != values.len()) {
        Some(BucketError::LogarithmsMismatch)
    } else if num_buckets == 0 && values.len() > 0 {
        Some(BucketError::NoBuckets)
    } else {
        None
    }
}

/// Tallies the values of a stream into buckets between its least and its
/// greatest value.
///
/// On a linear value axis the position of each value is computed from the
/// value. On a logarithmic one it is computed from `logs`, which holds the
/// natural logarithm of the span of the range and of the argument of each
/// value; the values themselves are not read. Every value is counted in
/// exactly one bucket, so the counts add up to the number of values.
pub fn bucketize(
    values: &Vec<Number>,
    num_buckets: usize,
    min: Number,
    max: Number,
    binning: Binning,
    logs: Option<&Logarithms>,
) -> (r: Result<Vec<u64>, BucketError>)
    ensures
        r matches Err(e) ==> bucket_defect(values@, num_buckets, binning, logs_view(logs)) == Some(
            e,
        ),
        r matches Ok(counts) ==> {
            &&& bucket_defect(values@, num_buckets, binning, logs_view(logs)) is None
            &&& counts.len() == num_buckets
            &&& forall|j: int|
                0 <= j < num_buckets ==> counts[j] == tally(
                    positions_of(values@, num_buckets, min, max, binning, logs_view(logs)),
                    num_buckets as nat,
                    min,
                    max,
                    j as nat,
                )
            &&& total(counts@) == values.len()
        },
{
    match binning {
        Binning::Linear => {
            let computed = linear_positions(values, num_buckets as u64, min, max);
            assert(computed@ =~= positions_of(
                values@,
                num_buckets,
                min,
                max,
                binning,
                logs_view(logs),
            ));
            tally_positions(&computed, num_buckets, min, max)
        },
        _ => {
            match logs {
                None => Err(BucketError::LogarithmsMismatch),
                Some(given) => {
                    if given.values.len() != values.len() {
                        Err(BucketError::LogarithmsMismatch)
                    } else {
                        let computed = log_positions(given, num_buckets as u64, binning);
                        assert(computed@ =~= positions_of(
                            values@,
                            num_buckets,
                            min,
                            max,
                            binning,
                            logs_view(logs),
                        ));
                        tally_positions(&computed, num_buckets, min, max)
                    }
                },
            }
        },
    }
}

/// On a linear axis a greater value belongs to no earlier a bucket, as
/// long as the width of a bucket is above zero.
pub proof fn lemma_linear_value_no_earlier_bucket(
    v1: Number,
    v2: Number,
    num_buckets: usize,
    min: Number,
    max: Number,
)
    requires
        at_most(v1, v2),
        min.finite(),
        positive(linear_width(num_buckets as u64, min, max)),
        num_buckets >= 1,
    ensures
        slot(
            linear_position(v1, num_buckets as u64, min, max),
            num_buckets as nat,
            min,
            max,
        ) <= slot(
            linear_position(v2, num_buckets as u64, min, max),
            num_buckets as nat,
            min,
            max,
        ) < num_buckets,
{
    let width = linear_width(num_buckets as u64, min, max);
    lemma_negation_turns_order(min, min);
    lemma_sum_keeps_order(v1, v2, negated(min));
    lemma_quotient_keeps_order(difference(v1, min), difference(v2, min), width);
    lemma_floor_keeps_order(
        linear_position(v1, num_buckets as u64, min, max),
        linear_position(v2, num_buckets as u64, min, max),
    );
}

/// On a logarithmic axis the argument of a greater value is no smaller or,
/// where the axis is cut from its upper end, no greater.
pub proof fn lemma_log_argument_keeps_order(
    v1: Number,
    v2: Number,
    min: Number,
    max: Number,
    binning: Binning,
)
    requires
        at_most(v1, v2),
        v1.finite(),
        v2.finite(),
        min.finite(),
        max.finite(),
    ensures
        binning != Binning::ReverseLogarithmic ==> at_most(
            log_argument(v1, min, max, binning),
            log_argument(v2, min, max, binning),
        ),
        binning == Binning::ReverseLogarithmic ==> at_most(
            log_argument(v2, min, max, binning),
            log_argument(v1, min, max, binning),
        ),
{
    if binning == Binning::ReverseLogarithmic {
        let top = sum(max, one());
        lemma_negation_turns_order(v1, v2);
        if top.finite() {
            lemma_sum_keeps_order(negated(v2), negated(v1), top);
        } else {
            lemma_sum_keeps_order(max, max, one());
        }
    } else {
        lemma_negation_turns_order(min, min);
        lemma_sum_keeps_order(v1, v2, negated(min));
        lemma_sum_keeps_order(difference(v1, min), difference(v2, min), one());
    }
}

/// On a logarithmic axis the position of a greater logarithm is no
/// smaller or, where the axis is cut from its upper end, no greater.
pub proof fn lemma_log_position_keeps_order(
    l1: Number,
    l2: Number,
    span_log: Number,
    num_buckets: u64,
    binning: Binning,
)
    requires
        at_most(l1, l2),
        positive(span_log),
        num_buckets >= 1,
    ensures
        binning != Binning::ReverseLogarithmic ==> at_most(
            log_position(l1, span_log, num_buckets, binning),
            log_position(l2, span_log, num_buckets, binning),
        ),
        binning == Binning::ReverseLogarithmic ==> at_most(
            log_position(l2, span_log, num_buckets, binning),
            log_position(l1, span_log, num_buckets, binning),
        ),
{
    lemma_count_is_a_number(num_buckets);
    let buckets = of_count(num_buckets);
    let s1 = quotient(l1, span_log);
    let s2 = quotient(l2, span_log);
    lemma_quotient_keeps_order(l1, l2, span_log);
    if binning == Binning::ReverseLogarithmic {
        lemma_negation_turns_order(s1, s2);
        lemma_sum_keeps_order(negated(s2), negated(s1), one());
        lemma_product_keeps_order(difference(one(), s2), difference(one(), s1), buckets);
    } else {
        lemma_product_keeps_order(s1, s2, buckets);
    }
}

/// On a logarithmic axis a greater value belongs to no earlier a bucket,
/// as long as the logarithms are in the order of what they are taken of
/// and the logarithm of the span is above zero.
///
/// `l1` and `l2` stand for the logarithms of the arguments of `v1` and
/// `v2`: all that is asked of them is that the logarithm of the greater
/// argument is no smaller.
pub proof fn lemma_greater_value_no_earlier_bucket(
    v1: Number,
    v2: Number,
    l1: Number,
    l2: Number,
    span_log: Number,
    num_buckets: usize,
    min: Number,
    max: Number,
    binning: Binning,
)
    requires
        at_most(v1, v2),
        v1.finite(),
        v2.finite(),
        min.finite(),
        max.finite(),
        binning != Binning::Linear,
        positive(span_log),
        num_buckets >= 1,
        at_most(log_argument(v1, min, max, binning), log_argument(v2, min, max, binning))
            ==> at_most(l1, l2),
        at_most(log_argument(v2, min, max, binning), log_argument(v1, min, max, binning))
            ==> at_most(l2, l1),
    ensures
        slot(
            log_position(l1, span_log, num_buckets as u64, binning),
            num_buckets as nat,
            min,
            max,
        ) <= slot(
            log_position(l2, span_log, num_buckets as u64, binning),
            num_buckets as nat,
            min,
            max,
        ) < num_buckets,
{
    lemma_log_argument_keeps_order(v1, v2, min, max, binning);
    if binning == Binning::ReverseLogarithmic {
        lemma_log_position_keeps_order(l2, l1, span_log, num_buckets as u64, binning);
    } else {
        lemma_log_position_keeps_order(l1, l2, span_log, num_buckets as u64, binning);
    }
    lemma_floor_keeps_order(
        log_position(l1, span_log, num_buckets as u64, binning),
        log_position(l2, span_log, num_buckets as u64, binning),
    );
}

/// Whether `logs` holds what `ln` gave: for the span of the range, and
/// for the argument of each value in the order of the values.
pub open spec fn taken_by<F: Fn(Number) -> Number>(
    ln: F,
    values: Seq<Number>,
    min: Number,
    max: Number,
    binning: Binning,
    logs: LogarithmsView,
) -> bool {
    &&& call_ensures(ln, (span(min, max),), logs.span)
    &&& logs.values.len() == values.len()
    &&& forall|i: int|
        0 <= i < values.len() ==> call_ensures(
            ln,
            (log_argument(values[i], min, max, binning),),
            #[trigger] logs.values[i],
        )
}

/// Whether `counts` tallies the values on a logarithmic axis by some
/// logarithms that `ln` gave.
pub open spec fn tallied_by<F: Fn(Number) -> Number>(
    ln: F,
    values: Seq<Number>,
    num_buckets: usize,
    min: Number,
    max: Number,
    binning: Binning,
    counts: Seq<u64>,
) -> bool {
    exists|logs: LogarithmsView|
        {
            &&& #[trigger] taken_by(ln, values, min, max, binning, logs)
            &&& forall|j: int|
                0 <= j < num_buckets ==> counts[j] == tally(
                    positions_of(values, num_buckets, min, max, binning, Some(logs)),
                    num_buckets as nat,
                    min,
                    max,
                    j as nat,
                )
        }
}

/// Takes the logarithms of a logarithmic axis by `ln` and tallies the
/// values by them.
fn bucketize_by<F: Fn(Number) -> Number>(
    values: &Vec<Number>,
    num_buckets: usize,
    min: Number,
    max: Number,
    binning: Binning,
    ln: F,
) -> (r: Result<Vec<u64>, BucketError>)
    requires
        binning != Binning::Linear,
        forall|x: Number| call_requires(ln, (x,)),
    ensures
        r is Err <==> num_buckets == 0 && values.len() > 0,
        r matches Err(e) ==> e == BucketError::NoBuckets,
        r matches Ok(counts) ==> {
            &&& counts.len() == num_buckets
            &&& total(counts@) == values.len()
            &&& tallied_by(ln, values@, num_buckets, min, max, binning, counts@)
        },
{
    let arguments = log_arguments(values, min, max, binning);
    let span_log = ln(span_of(min, max));
    let mut taken: Vec<Number> = Vec::new();
    let mut i: usize = 0;
    while i < arguments.len()
        invariant
            i <= arguments.len(),
            arguments.len() == values.len(),
            taken.len() == i,
            forall|x: Number| call_requires(ln, (x,)),
            forall|k: int|
                0 <= k < values.len() ==> arguments[k] == log_argument(
                    values[k],
                    min,
                    max,
                    binning,
                ),
            forall|k: int|
                0 <= k < i ==> call_ensures(
                    ln,
                    (log_argument(values[k], min, max, binning),),
                    #[trigger] taken[k],
                ),
        decreases arguments.len() - i,
    {
        let log = ln(arguments[i]);
        taken.push(log);
        i = i + 1;
    }
    let logs = Logarithms { span: span_log, values: taken };
    assert(taken_by(ln, values@, min, max, binning, logs@));
    bucketize(values, num_buckets, min, max, binning, Some(&logs))
}

/// Tallies the values of a stream into buckets that grow with the value.
///
/// `ln` is asked for the natural logarithm of the span of the range and of
/// the argument of each value. Whatever it gives, every value is counted
/// in exactly one bucket: with a bucket to count in there is always a
/// tally, of as many counts as there are buckets, and the counts add up to
/// the number of values.
pub fn bucketize_log<F: Fn(Number) -> Number>(
    values: &Vec<Number>,
    num_buckets: usize,
    min: Number,
    max: Number,
    ln: F,
) -> (r: Result<Vec<u64>, BucketError>)
    requires
        forall|x: Number| call_requires(ln, (x,)),
    ensures
        r is Err <==> num_buckets == 0 && values.len() > 0,
        r matches Err(e) ==> e == BucketError::NoBuckets,
        r matches Ok(counts) ==> {
            &&& counts.len() == num_buckets
            &&& total(counts@) == values.len()
            &&& tallied_by(ln, values@, num_buckets, min, max, Binning::Logarithmic, counts@)
        },
{
    bucketize_by(values, num_buckets, min, max, Binning::Logarithmic, ln)
}

/// Tallies the values of a stream into buckets that shrink with the
/// value.
///
/// `ln` is asked for the natural logarithm of the span of the range and of
/// the argument of each value. Whatever it gives, every value is counted
/// in exactly one bucket: with a bucket to count in there is always a
/// tally, of as many counts as there are buckets, and the counts add up to
/// the number of values.
pub fn bucketize_log_rev<F: Fn(Number) -> Number>(
    values: &Vec<Number>,
    num_buckets: usize,
    min: Number,
    max: Number,
    ln: F,
) -> (r: Result<Vec<u64>, BucketError>)
    requires
        forall|x: Number| call_requires(ln, (x,)),
    ensures
        r is Err <==> num_buckets == 0 && values.len() > 0,
        r matches Err(e) ==> e == BucketError::NoBuckets,
        r matches Ok(counts) ==> {
            &&& counts.len() == num_buckets
            &&& total(counts@) == values.len()
            &&& tallied_by(
                ln,
                values@,
                num_buckets,
                min,
                max,
                Binning::ReverseLogarithmic,
                counts@,
            )
        },
{
    bucketize_by(values, num_buckets, min, max, Binning::ReverseLogarithmic, ln)
}

} // verus!
