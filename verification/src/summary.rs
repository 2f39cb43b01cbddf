//! The running summary of a stream and the report that is made of it.
//!
//! The summary keeps how many values arrived, the least and the greatest
//! of them, and their sum. The report takes the summary and the estimate of
//! mean and variance; it decides which statistics are shown, in which order
//! and under which label, writes them out, and says which of them the
//! stream leaves undefined.

use crate::arith::{square_root, sum};
use crate::fixed::{fixed_text, push_fixed};
use crate::number::Number;
use crate::shortest::{push_shortest, shortest_text};
use crate::streaming_variance::{Estimate, StreamingVariance};
use crate::text::{decimal, push_decimal, texts};
use vstd::prelude::*;
use vstd::string::*;

verus! {

/// The least and the greatest value of a stream.
#[derive(Clone, Copy, Debug)]
pub struct Range {
    pub min: Number,
    pub max: Number,
}

/// What is known of a stream after some of its values.
#[derive(Clone, Copy, Debug)]
pub struct Summary {
    /// The number of values.
    pub count: u64,
    /// Their range; none until a value arrives that is not a NaN.
    pub range: Option<Range>,
    /// Their sum, each value added as it arrived.
    pub sum: Number,
}

impl Range {
    /// The range widened to hold `value`. A NaN has no place in the order
    /// and leaves the range as it is.
    pub open spec fn with(self, value: Number) -> Range {
        Range {
            min: if value.below(self.min) {
                value
            } else {
                self.min
            },
            max: if value.above(self.max) {
                value
            } else {
                self.max
            },
        }
    }

    /// Whether `value` lies between the two ends.
    pub open spec fn holds(self, value: Number) -> bool {
        !value.below(self.min) && !value.above(self.max)
    }
}

impl Summary {
    /// The summary of the empty stream.
    pub open spec fn empty() -> Summary {
        Summary { count: 0, range: None, sum: Number { bits: 0 } }
    }

    /// The summary after one more value.
    pub open spec fn observed(self, value: Number) -> Summary {
        Summary {
            count: (self.count + 1) as u64,
            range: if value.nan() {
                self.range
            } else {
                match self.range {
                    Some(range) => Some(range.with(value)),
                    None => Some(Range { min: value, max: value }),
                }
            },
            sum: sum(self.sum, value),
        }
    }

    /// The summary of a whole stream.
    pub open spec fn of(values: Seq<Number>) -> Summary
        decreases values.len(),
    {
        if values.len() == 0 {
            Summary::empty()
        } else {
            Summary::of(values.drop_last()).observed(values.last())
        }
    }

    pub fn new() -> (s: Summary)
        ensures
            s == Summary::empty(),
    {
        Summary { count: 0, range: None, sum: Number { bits: 0 } }
    }

    /// Takes one more value into the summary.
    pub fn update(&mut self, value: Number)
        requires
            old(self).count < u64::MAX,
        ensures
            *final(self) == old(self).observed(value),
    {
        self.count = self.count + 1;
        self.sum = self.sum.plus(value);
        if !value.is_nan() {
            self.range = match self.range {
                Some(range) => Some(
                    Range {
                        min: if value.less_than(range.min) {
                            value
                        } else {
                            range.min
                        },
                        max: if value.greater_than(range.max) {
                            value
                        } else {
                            range.max
                        },
                    },
                ),
                None => Some(Range { min: value, max: value }),
            };
        }
    }

    pub fn count(&self) -> (n: u64)
        ensures
            n == self.count,
    {
        self.count
    }

    pub fn sum(&self) -> (s: Number)
        ensures
            s == self.sum,
    {
        self.sum
    }

    /// The least value, if any value has an order.
    pub fn min(&self) -> (m: Option<Number>)
        ensures
            m == match self.range {
                Some(range) => Some(range.min),
                None => None,
            },
    {
        match self.range {
            Some(range) => Some(range.min),
            None => None,
        }
    }

    /// The greatest value, if any value has an order.
    pub fn max(&self) -> (m: Option<Number>)
        ensures
            m == match self.range {
                Some(range) => Some(range.max),
                None => None,
            },
    {
        match self.range {
            Some(range) => Some(range.max),
            None => None,
        }
    }
}

/// After `n` values the count is `n`.
pub proof fn lemma_count_is_length(values: Seq<Number>)
    requires
        values.len() <= u64::MAX,
    ensures
        Summary::of(values).count == values.len(),
    decreases values.len(),
{
    if values.len() > 0 {
        lemma_count_is_length(values.drop_last());
    }
}

/// One more value is one more step of the summary.
pub proof fn lemma_of_push(values: Seq<Number>, value: Number)
    ensures
        Summary::of(values.push(value)) == Summary::of(values).observed(value),
{
    assert(values.push(value).drop_last() =~= values);
}

/// A stream has a range as soon as one of its values is not a NaN. The ends
/// of the range are values of the stream, the least is not above the
/// greatest, and every value that is not a NaN lies between them.
pub proof fn lemma_range_bounds_stream(values: Seq<Number>)
    ensures
        Summary::of(values).range is None <==> forall|i: int|
            0 <= i < values.len() ==> (#[trigger] values[i]).nan(),
        Summary::of(values).range matches Some(range) ==> {
            &&& !range.min.nan() && !range.max.nan()
            &&& !range.max.below(range.min)
            &&& exists|i: int| 0 <= i < values.len() && values[i] == range.min
            &&& exists|i: int| 0 <= i < values.len() && values[i] == range.max
            &&& forall|i: int|
                0 <= i < values.len() && !(#[trigger] values[i]).nan() ==> range.holds(values[i])
        },
    decreases values.len(),
{
    if values.len() > 0 {
        let front = values.drop_last();
        let last = values.last();
        lemma_range_bounds_stream(front);
        let before = Summary::of(front).range;
        let after = Summary::of(values).range;
        assert forall|i: int| 0 <= i < front.len() implies front[i] == values[i] by {}
        if after is None {
            assert forall|i: int| 0 <= i < values.len() implies (#[trigger] values[i]).nan() by {
                if i < front.len() {
                    assert(front[i].nan());
                }
            }
        } else {
            let range = after.unwrap();
            if last.nan() {
                let i = choose|i: int| 0 <= i < front.len() && front[i] == range.min;
                assert(values[i] == range.min);
                let j = choose|j: int| 0 <= j < front.len() && front[j] == range.max;
                assert(values[j] == range.max);
            } else if before is None {
                assert(values[values.len() - 1] == range.min);
                assert(values[values.len() - 1] == range.max);
            } else {
                let old_range = before.unwrap();
                if last.below(old_range.min) {
                    assert(values[values.len() - 1] == range.min);
                } else {
                    let i = choose|i: int| 0 <= i < front.len() && front[i] == old_range.min;
                    assert(values[i] == range.min);
                }
                if last.above(old_range.max) {
                    assert(values[values.len() - 1] == range.max);
                } else {
                    let j = choose|j: int| 0 <= j < front.len() && front[j] == old_range.max;
                    assert(values[j] == range.max);
                }
            }
            assert forall|i: int|
                0 <= i < values.len() && !(#[trigger] values[i]).nan() implies range.holds(
                values[i],
            ) by {
                if i < front.len() {
                    assert(!front[i].nan());
                    assert(before.unwrap().holds(front[i]));
                }
            }
            if !last.nan() {
                assert(!values[values.len() - 1].nan());
            } else if before is Some {
                let w = choose|i: int| 0 <= i < front.len() && front[i] == before.unwrap().min;
                assert(!values[w].nan());
            }
        }
    }
}

/// A statistic of the report.
#[derive(Clone, Copy, Debug, PartialEq, Eq, Structural)]
pub enum Statistic {
    Count,
    Min,
    Mean,
    Max,
    Sum,
    StandardDeviation,
}

/// Which statistics are asked for. `basic` asks for count, min, mean and
/// max together.
#[derive(Clone, Copy, Debug)]
pub struct Selectors {
    pub basic: bool,
    pub count: bool,
    pub min: bool,
    pub mean: bool,
    pub max: bool,
    pub sum: bool,
    pub standard_deviation: bool,
}

/// The decimal places of a statistic.
pub const STATISTIC_PLACES: u8 = 3;

/// A report: the lines of the statistics, and a diagnostic for each
/// statistic that was asked for and that the stream leaves undefined.
#[derive(Debug)]
pub struct Report {
    pub lines: Vec<String>,
    pub diagnostics: Vec<String>,
}

pub struct ReportView {
    pub lines: Seq<Seq<char>>,
    pub diagnostics: Seq<Seq<char>>,
}

impl View for Report {
    type V = ReportView;

    open spec fn view(&self) -> ReportView {
        ReportView { lines: texts(self.lines@), diagnostics: texts(self.diagnostics@) }
    }
}

impl Selectors {
    /// Whether the statistic is asked for, by its own selector or by `basic`.
    pub open spec fn wants(self, statistic: Statistic) -> bool {
        match statistic {
            Statistic::Count => self.count || self.basic,
            Statistic::Min => self.min || self.basic,
            Statistic::Mean => self.mean || self.basic,
            Statistic::Max => self.max || self.basic,
            Statistic::Sum => self.sum,
            Statistic::StandardDeviation => self.standard_deviation,
        }
    }

    pub fn selects(&self, statistic: Statistic) -> (r: bool)
        ensures
            r == self.wants(statistic),
    {
        match statistic {
            Statistic::Count => self.count || self.basic,
            Statistic::Min => self.min || self.basic,
            Statistic::Mean => self.mean || self.basic,
            Statistic::Max => self.max || self.basic,
            Statistic::Sum => self.sum,
            Statistic::StandardDeviation => self.standard_deviation,
        }
    }
}

/// Whether the stream gives the statistic a value: count and sum always,
/// min and max once there is a range, the mean from one value on, the
/// standard deviation of a sample from two values on.
pub open spec fn defines(summary: Summary, spread: Estimate, statistic: Statistic) -> bool {
    match statistic {
        Statistic::Count => true,
        Statistic::Min => summary.range is Some,
        Statistic::Mean => spread.count >= 1,
        Statistic::Max => summary.range is Some,
        Statistic::Sum => true,
        Statistic::StandardDeviation => spread.count >= 2,
    }
}

/// Whether the stream gives the statistic a value.
pub fn has(summary: &Summary, spread: &StreamingVariance, statistic: Statistic) -> (r: bool)
    ensures
        r == defines(*summary, spread@, statistic),
{
    match statistic {
        Statistic::Count => true,
        Statistic::Min => summary.range.is_some(),
        Statistic::Mean => spread.count() >= 1,
        Statistic::Max => summary.range.is_some(),
        Statistic::Sum => true,
        Statistic::StandardDeviation => spread.count() >= 2,
    }
}

/// The label that a statistic's line begins with.
pub open spec fn label(statistic: Statistic) -> Seq<char> {
    match statistic {
        Statistic::Count => "count: "@,
        Statistic::Min => "min:   "@,
        Statistic::Mean => "mean:  "@,
        Statistic::Max => "max:   "@,
        Statistic::Sum => "sum: "@,
        Statistic::StandardDeviation => "standard deviation: "@,
    }
}

/// The text of a statistic's value: the count as a decimal numeral, the
/// sum in its shortest text, every other statistic with three decimal
/// places. The standard deviation is that of the values as a sample.
pub open spec fn figure(statistic: Statistic, summary: Summary, spread: Estimate) -> Seq<
    char,
> {
    match statistic {
        Statistic::Count => decimal(summary.count as nat),
        Statistic::Min => fixed_text(summary.range.unwrap().min, STATISTIC_PLACES as nat),
        Statistic::Mean => fixed_text(spread.mean, STATISTIC_PLACES as nat),
        Statistic::Max => fixed_text(summary.range.unwrap().max, STATISTIC_PLACES as nat),
        Statistic::Sum => shortest_text(summary.sum),
        Statistic::StandardDeviation => fixed_text(
            square_root(spread.sample_variance_of()),
            STATISTIC_PLACES as nat,
        ),
    }
}

/// The name of a statistic.
pub open spec fn name(statistic: Statistic) -> Seq<char> {
    match statistic {
        Statistic::Count => "count"@,
        Statistic::Min => "min"@,
        Statistic::Mean => "mean"@,
        Statistic::Max => "max"@,
        Statistic::Sum => "sum"@,
        Statistic::StandardDeviation => "standard deviation"@,
    }
}

/// The diagnostic for a statistic that the stream leaves without a value.
pub open spec fn undefined(statistic: Statistic) -> Seq<char> {
    name(statistic) + " is undefined for this stream"@
}

/// What one statistic adds to a report.
pub open spec fn with_statistic(
    report: ReportView,
    statistic: Statistic,
    selectors: Selectors,
    summary: Summary,
    spread: Estimate,
) -> ReportView {
    if !selectors.wants(statistic) {
        report
    } else if defines(summary, spread, statistic) {
        ReportView {
            lines: report.lines.push(label(statistic) + figure(statistic, summary, spread)),
            diagnostics: report.diagnostics,
        }
    } else {
        ReportView { lines: report.lines, diagnostics: report.diagnostics.push(undefined(statistic)) }
    }
}

/// The report of a stream: the statistics that are asked for, in the order
/// count, min, mean, max, sum, standard deviation.
pub open spec fn reported(
    selectors: Selectors,
    summary: Summary,
    spread: Estimate,
) -> ReportView {
    let r0 = ReportView { lines: Seq::empty(), diagnostics: Seq::empty() };
    let r1 = with_statistic(r0, Statistic::Count, selectors, summary, spread);
    let r2 = with_statistic(r1, Statistic::Min, selectors, summary, spread);
    let r3 = with_statistic(r2, Statistic::Mean, selectors, summary, spread);
    let r4 = with_statistic(r3, Statistic::Max, selectors, summary, spread);
    let r5 = with_statistic(r4, Statistic::Sum, selectors, summary, spread);
    with_statistic(r5, Statistic::StandardDeviation, selectors, summary, spread)
}

fn label_text(statistic: Statistic) -> (s: &'static str)
    ensures
        s@ == label(statistic),
{
    match statistic {
        Statistic::Count => "count: ",
        Statistic::Min => "min:   ",
        Statistic::Mean => "mean:  ",
        Statistic::Max => "max:   ",
        Statistic::Sum => "sum: ",
        Statistic::StandardDeviation => "standard deviation: ",
    }
}

fn name_text(statistic: Statistic) -> (s: &'static str)
    ensures
        s@ == name(statistic),
{
    match statistic {
        Statistic::Count => "count",
        Statistic::Min => "min",
        Statistic::Mean => "mean",
        Statistic::Max => "max",
        Statistic::Sum => "sum",
        Statistic::StandardDeviation => "standard deviation",
    }
}

fn add_statistic(
    report: &mut Report,
    statistic: Statistic,
    selectors: &Selectors,
    summary: &Summary,
    spread: &StreamingVariance,
)
    ensures
        final(report)@ == with_statistic(old(report)@, statistic, *selectors, *summary, spread@),
{
    if !selectors.selects(statistic) {
        return ;
    }
    if has(summary, spread, statistic) {
        let mut line = String::from_str(label_text(statistic));
        match statistic {
            Statistic::Count => push_decimal(&mut line, summary.count as u128),
            Statistic::Min => push_fixed(&mut line, summary.range.unwrap().min, STATISTIC_PLACES),
            Statistic::Mean => push_fixed(&mut line, spread.mean(), STATISTIC_PLACES),
            Statistic::Max => push_fixed(&mut line, summary.range.unwrap().max, STATISTIC_PLACES),
            Statistic::Sum => push_shortest(&mut line, summary.sum),
            Statistic::StandardDeviation => push_fixed(
                &mut line,
                spread.sample_standard_deviation().unwrap(),
                STATISTIC_PLACES,
            ),
        }
        let ghost before = report.lines@;
        report.lines.push(line);
        assert(texts(report.lines@) =~= texts(before).push(line@));
    } else {
        let mut line = String::from_str(name_text(statistic));
        line.append(" is undefined for this stream");
        let ghost before = report.diagnostics@;
        report.diagnostics.push(line);
        assert(texts(report.diagnostics@) =~= texts(before).push(line@));
    }
}

/// Makes the report of a stream from its summary and from the estimate of
/// its mean and variance.
pub fn report(selectors: &Selectors, summary: &Summary, spread: &StreamingVariance) -> (r: Report)
    ensures
        r@ == reported(*selectors, *summary, spread@),
{
    let mut r = Report { lines: Vec::new(), diagnostics: Vec::new() };
    assert(r@.lines =~= Seq::empty() && r@.diagnostics =~= Seq::empty());
    add_statistic(&mut r, Statistic::Count, selectors, summary, spread);
    add_statistic(&mut r, Statistic::Min, selectors, summary, spread);
    add_statistic(&mut r, Statistic::Mean, selectors, summary, spread);
    add_statistic(&mut r, Statistic::Max, selectors, summary, spread);
    add_statistic(&mut r, Statistic::Sum, selectors, summary, spread);
    add_statistic(&mut r, Statistic::StandardDeviation, selectors, summary, spread);
    r
}

} // verus!
