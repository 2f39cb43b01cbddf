//! The histogram: its configuration and the layout of its lines.
//!
//! A histogram is a header, one row per bucket and a footer. The header
//! carries evenly spaced markers of the count axis; a row carries the value
//! at the bucket's left edge and a bar for its count; the footer carries the
//! upper end of the value axis.
//!
//! Logarithms and powers are not taken here. A logarithmic value axis is
//! given the powers of the span that its edges stand at, to the exponents
//! that `edge_shares` tells; a logarithmic count axis is given the
//! logarithms of the counts and the powers of ten that its markers stand
//! at, to the exponents that `marker_exponents` tells. Everything else is
//! computed and laid out here.

use crate::arith::{difference, of_count, one, product, quotient, sum, ONE_BITS};
use crate::fixed::{fixed, fixed_text};
use crate::matches::{first_value, is_present, present, value_of};
use crate::number::Number;
use crate::text::{
    pad_left, parse_u64, parsed_u64, push_copies, push_padded, push_spaces, repeat, text_of, texts,
};
use clap::ArgMatches;
use vstd::prelude::*;
use vstd::string::*;

verus! {

/// How the value range is cut into buckets.
#[derive(Clone, Copy, Debug, PartialEq, Eq, Structural)]
pub enum Binning {
    /// Buckets of equal width.
    Linear,
    /// Buckets that grow with the value: fine at the low end.
    Logarithmic,
    /// Buckets that shrink with the value: fine at the high end.
    ReverseLogarithmic,
}

/// A setting of the histogram that is given as a number.
#[derive(Clone, Copy, Debug, PartialEq, Eq, Structural)]
pub enum Setting {
    Width,
    Height,
    NumLabels,
}

/// What keeps settings from being read, or a configuration that was read
/// from being drawn.
#[derive(Clone, Copy, Debug, PartialEq, Eq, Structural)]
pub enum ConfigError {
    /// The setting has no value.
    Missing(Setting),
    /// The value of the setting is not the decimal numeral of a 64-bit
    /// number.
    Malformed(Setting),
    /// The height, which is the number of buckets, is zero.
    NoBuckets,
    /// The number of labels is zero.
    NoLabels,
    /// The width leaves a label fewer than two columns.
    LabelsTooNarrow,
    /// Both logarithmic cuts of the value axis are asked for.
    ConflictingAxes,
}

/// Why there is no histogram.
#[derive(Clone, Copy, Debug, PartialEq, Eq, Structural)]
pub enum PlotError {
    /// The configuration is unusable.
    Config(ConfigError),
    /// There are no buckets, or every bucket is empty.
    NothingToPlot,
    /// The number of buckets is not the configured height.
    BucketsMismatch,
    /// The value axis is logarithmic and its powers are missing, or there
    /// is not one power per bucket.
    PowersMismatch,
    /// The count axis is logarithmic and its scale is missing, or has not
    /// one logarithm per bucket and one marker per label.
    LogScaleMismatch,
}

/// The configuration of a histogram.
#[derive(Clone, Copy, Debug)]
pub struct PlotArgs {
    /// The least value of the stream.
    pub min: Number,
    /// The greatest value of the stream.
    pub max: Number,
    /// The length of the longest bar, in characters.
    pub width: u64,
    /// The number of buckets.
    pub height: u64,
    /// The number of markers in the header.
    pub num_labels: u64,
    /// Cut the value axis logarithmically.
    pub log_x: bool,
    /// Scale the bars logarithmically.
    pub log_y: bool,
    /// Cut the value axis logarithmically from its upper end.
    pub log_x_rev: bool,
    /// Leave out the rows of empty buckets.
    pub omit_empty: bool,
}

/// The settings of a histogram as the command line gives them: numbers as
/// texts, switches as booleans.
#[derive(Debug)]
pub struct RawArgs {
    pub width: Option<String>,
    pub height: Option<String>,
    pub num_labels: Option<String>,
    pub log_x: bool,
    pub log_x_rev: bool,
    pub log_y: bool,
    pub omit_empty: bool,
}

pub struct RawArgsView {
    pub width: Option<Seq<char>>,
    pub height: Option<Seq<char>>,
    pub num_labels: Option<Seq<char>>,
    pub log_x: bool,
    pub log_x_rev: bool,
    pub log_y: bool,
    pub omit_empty: bool,
}

impl View for RawArgs {
    type V = RawArgsView;

    open spec fn view(&self) -> RawArgsView {
        RawArgsView {
            width: text_of(self.width),
            height: text_of(self.height),
            num_labels: text_of(self.num_labels),
            log_x: self.log_x,
            log_x_rev: self.log_x_rev,
            log_y: self.log_y,
            omit_empty: self.omit_empty,
        }
    }
}

/// The number that a setting is given as.
pub open spec fn setting(value: Option<Seq<char>>, which: Setting) -> Result<u64, ConfigError> {
    match value {
        None => Err(ConfigError::Missing(which)),
        Some(text) => match parsed_u64(text) {
            Some(number) => Ok(number),
            None => Err(ConfigError::Malformed(which)),
        },
    }
}

/// The settings that the matches hold: the first values of `width`,
/// `height` and `num-labels`, and the presence of `log-x`, `log-x-rev`,
/// `log-y` and `omit-empty`.
pub open spec fn matched(matches: ArgMatches) -> RawArgsView {
    RawArgsView {
        width: first_value(matches, "width"@),
        height: first_value(matches, "height"@),
        num_labels: first_value(matches, "num-labels"@),
        log_x: present(matches).contains("log-x"@),
        log_x_rev: present(matches).contains("log-x-rev"@),
        log_y: present(matches).contains("log-y"@),
        omit_empty: present(matches).contains("omit-empty"@),
    }
}

fn read_setting(value: &Option<String>, which: Setting) -> (r: Result<u64, ConfigError>)
    ensures
        r == setting(text_of(*value), which),
{
    match value {
        None => Err(ConfigError::Missing(which)),
        Some(text) => match parse_u64(text.as_str()) {
            Some(number) => Ok(number),
            None => Err(ConfigError::Malformed(which)),
        },
    }
}

impl PlotArgs {
    /// The configuration that the raw settings stand for, or the first
    /// reason why they stand for none: width, height and the number of
    /// labels are read in this order. Settings that are read give a
    /// configuration, whatever their numbers: whether a histogram can be
    /// made of it is what `defect` tells.
    pub open spec fn configured(raw: RawArgsView, min: Number, max: Number) -> Result<
        PlotArgs,
        ConfigError,
    > {
        match setting(raw.width, Setting::Width) {
            Err(e) => Err(e),
            Ok(width) => match setting(raw.height, Setting::Height) {
                Err(e) => Err(e),
                Ok(height) => match setting(raw.num_labels, Setting::NumLabels) {
                    Err(e) => Err(e),
                    Ok(num_labels) => Ok(
                        PlotArgs {
                            min,
                            max,
                            width,
                            height,
                            num_labels,
                            log_x: raw.log_x,
                            log_y: raw.log_y,
                            log_x_rev: raw.log_x_rev,
                            omit_empty: raw.omit_empty,
                        },
                    ),
                },
            },
        }
    }

    /// Makes a configuration from raw settings.
    pub fn from_raw(raw: &RawArgs, min: Number, max: Number) -> (r: Result<PlotArgs, ConfigError>)
        ensures
            r == PlotArgs::configured(raw@, min, max),
    {
        let width = match read_setting(&raw.width, Setting::Width) {
            Ok(number) => number,
            Err(e) => {
                return Err(e);
            },
        };
        let height = match read_setting(&raw.height, Setting::Height) {
            Ok(number) => number,
            Err(e) => {
                return Err(e);
            },
        };
        let num_labels = match read_setting(&raw.num_labels, Setting::NumLabels) {
            Ok(number) => number,
            Err(e) => {
                return Err(e);
            },
        };
        Ok(
            PlotArgs {
                min,
                max,
                width,
                height,
                num_labels,
                log_x: raw.log_x,
                log_y: raw.log_y,
                log_x_rev: raw.log_x_rev,
                omit_empty: raw.omit_empty,
            },
        )
    }

    /// Makes a configuration from what the command line matched.
    pub fn new(plot_matches: &ArgMatches, min: Number, max: Number) -> (r: Result<
        PlotArgs,
        ConfigError,
    >)
        ensures
            r == PlotArgs::configured(matched(*plot_matches), min, max),
    {
        let raw = RawArgs {
            width: value_of(plot_matches, "width"),
            height: value_of(plot_matches, "height"),
            num_labels: value_of(plot_matches, "num-labels"),
            log_x: is_present(plot_matches, "log-x"),
            log_x_rev: is_present(plot_matches, "log-x-rev"),
            log_y: is_present(plot_matches, "log-y"),
            omit_empty: is_present(plot_matches, "omit-empty"),
        };
        assert(raw@ == matched(*plot_matches));
        PlotArgs::from_raw(&raw, min, max)
    }

    /// The first reason, if any, why the configuration cannot be used.
    pub open spec fn defect(self) -> Option<ConfigError> {
        if self.height == 0 {
            Some(ConfigError::NoBuckets)
        } else if self.num_labels == 0 {
            Some(ConfigError::NoLabels)
        } else if self.width / self.num_labels < 2 {
            Some(ConfigError::LabelsTooNarrow)
        } else if self.log_x && self.log_x_rev {
            Some(ConfigError::ConflictingAxes)
        } else {
            None
        }
    }

    /// The columns that a marker is right-justified in.
    pub open spec fn cell(self) -> nat
        recommends
            self.defect() is None,
    {
        (self.width / self.num_labels - 2) as nat
    }

    /// The cut of the value axis; the forward logarithmic cut wins where
    /// both are set.
    pub open spec fn cut(self) -> Binning {
        if self.log_x {
            Binning::Logarithmic
        } else if self.log_x_rev {
            Binning::ReverseLogarithmic
        } else {
            Binning::Linear
        }
    }

    /// Reports the first defect of the configuration.
    pub fn check(&self) -> (r: Result<(), ConfigError>)
        ensures
            r == match self.defect() {
                Some(e) => Err::<(), ConfigError>(e),
                None => Ok::<(), ConfigError>(()),
            },
    {
        if self.height == 0 {
            Err(ConfigError::NoBuckets)
        } else if self.num_labels == 0 {
            Err(ConfigError::NoLabels)
        } else if self.width / self.num_labels < 2 {
            Err(ConfigError::LabelsTooNarrow)
        } else if self.log_x && self.log_x_rev {
            Err(ConfigError::ConflictingAxes)
        } else {
            Ok(())
        }
    }

    pub fn binning(&self) -> (b: Binning)
        ensures
            b == self.cut(),
    {
        if self.log_x {
            Binning::Logarithmic
        } else if self.log_x_rev {
            Binning::ReverseLogarithmic
        } else {
            Binning::Linear
        }
    }
}

/// Settings that parse give a configuration, whatever their numbers: it
/// holds the three numbers, the four switches as they are set, and the
/// range as it is given.
pub proof fn lemma_parsed_settings_configure(
    raw: RawArgsView,
    min: Number,
    max: Number,
    width: u64,
    height: u64,
    num_labels: u64,
)
    requires
        raw.width matches Some(text) && parsed_u64(text) == Some(width),
        raw.height matches Some(text) && parsed_u64(text) == Some(height),
        raw.num_labels matches Some(text) && parsed_u64(text) == Some(num_labels),
    ensures
        PlotArgs::configured(raw, min, max) == Ok::<PlotArgs, ConfigError>(
            PlotArgs {
                min,
                max,
                width,
                height,
                num_labels,
                log_x: raw.log_x,
                log_y: raw.log_y,
                log_x_rev: raw.log_x_rev,
                omit_empty: raw.omit_empty,
            },
        ),
{
}

/// The decimal places of a value on the value axis.
pub const VALUE_PLACES: u8 = 2;

/// The decimal places of a marker on the count axis.
pub const MARKER_PLACES: u8 = 3;

/// A logarithmic count axis: the logarithms and powers that it takes.
#[derive(Debug)]
pub struct LogScale {
    /// The logarithm to base ten of the greatest count.
    pub peak: Number,
    /// The logarithm to base ten of each bucket's count.
    pub counts: Vec<Number>,
    /// The counts that the markers of the header stand at: ten to the
    /// power of each marker's exponent.
    pub markers: Vec<Number>,
}

pub struct LogScaleView {
    pub peak: Number,
    pub counts: Seq<Number>,
    pub markers: Seq<Number>,
}

impl View for LogScale {
    type V = LogScaleView;

    open spec fn view(&self) -> LogScaleView {
        LogScaleView { peak: self.peak, counts: self.counts@, markers: self.markers@ }
    }
}

/// The lines of a histogram.
#[derive(Debug)]
pub struct Histogram {
    pub header: String,
    pub rows: Vec<String>,
    pub footer: String,
}

pub struct HistogramView {
    pub header: Seq<char>,
    pub rows: Seq<Seq<char>>,
    pub footer: Seq<char>,
}

impl View for Histogram {
    type V = HistogramView;

    open spec fn view(&self) -> HistogramView {
        HistogramView { header: self.header@, rows: texts(self.rows@), footer: self.footer@ }
    }
}

/// The scale that was handed in, if any.
pub open spec fn scale_view(log: Option<&LogScale>) -> Option<LogScaleView> {
    match log {
        Some(scale) => Some(scale@),
        None => None,
    }
}

/// The powers that were handed in, if any.
pub open spec fn powers_view(powers: Option<&Vec<Number>>) -> Option<Seq<Number>> {
    match powers {
        Some(values) => Some(values@),
        None => None,
    }
}

/// The greatest count; 0 where there is no bucket.
pub open spec fn peak(buckets: Seq<u64>) -> nat
    decreases buckets.len(),
{
    if buckets.len() == 0 {
        0
    } else if buckets.last() > peak(buckets.drop_last()) {
        buckets.last() as nat
    } else {
        peak(buckets.drop_last())
    }
}

/// The text of the upper end of the value axis. Its length is the width of
/// the column of edges.
pub open spec fn upper_end(args: PlotArgs) -> Seq<char> {
    fixed_text(args.max, VALUE_PLACES as nat)
}

/// The characters that stand for one count, or for one in the logarithm
/// of a count: the width over the peak, or over its logarithm.
pub open spec fn tile(args: PlotArgs, buckets: Seq<u64>, log: Option<LogScaleView>) -> Number {
    if args.log_y {
        quotient(of_count(args.width), log.unwrap().peak)
    } else {
        quotient(of_count(args.width), of_count(peak(buckets) as u64))
    }
}

/// The length of the bar of bucket `i`: the tile times the count, or times
/// its logarithm, rounded to the nearest character.
pub open spec fn bar_length(
    args: PlotArgs,
    buckets: Seq<u64>,
    log: Option<LogScaleView>,
    i: int,
) -> nat {
    if args.log_y {
        product(tile(args, buckets, log), log.unwrap().counts[i]).nearest_count() as nat
    } else {
        product(tile(args, buckets, log), of_count(buckets[i])).nearest_count() as nat
    }
}

/// The bar of a count: nothing for 0, a single `X` for 1, `#` signs beyond.
pub open spec fn bar(count: u64, length: nat) -> Seq<char> {
    if count > 1 {
        repeat('#', length)
    } else if count == 1 {
        seq!['X']
    } else {
        Seq::empty()
    }
}

/// Marker `i` of `num_labels`, counted from 0, on a scale up to `top`:
/// the markers divide the scale evenly, and the last stands at its top.
pub open spec fn marker_at(top: Number, i: u64, num_labels: u64) -> Number {
    quotient(product(top, of_count((i + 1) as u64)), of_count(num_labels))
}

/// The exponent of marker `i` of a logarithmic count axis: the markers
/// divide the logarithm of the peak evenly.
pub open spec fn marker_exponent(args: PlotArgs, peak_log: Number, i: int) -> Number {
    marker_at(peak_log, i as u64, args.num_labels)
}

/// The text of marker `i`, counted from 0. On a linear count axis the
/// markers divide the peak evenly; on a logarithmic one they stand where
/// the scale says.
pub open spec fn marker(
    args: PlotArgs,
    buckets: Seq<u64>,
    log: Option<LogScaleView>,
    i: int,
) -> Seq<char> {
    if args.log_y {
        fixed_text(log.unwrap().markers[i], MARKER_PLACES as nat)
    } else {
        fixed_text(
            marker_at(of_count(peak(buckets) as u64), i as u64, args.num_labels),
            MARKER_PLACES as nat,
        )
    }
}

/// The first `n` markers, each right-justified in its cell and closed by a
/// space and a bar.
pub open spec fn marker_cells(
    args: PlotArgs,
    buckets: Seq<u64>,
    log: Option<LogScaleView>,
    n: nat,
) -> Seq<char>
    decreases n,
{
    if n == 0 {
        Seq::empty()
    } else {
        marker_cells(args, buckets, log, (n - 1) as nat) + pad_left(
            marker(args, buckets, log, n - 1),
            args.cell(),
        ) + seq![' ', '|']
    }
}

/// The header: blanks over the column of edges, then the markers.
pub open spec fn header(args: PlotArgs, buckets: Seq<u64>, log: Option<LogScaleView>) -> Seq<
    char,
> {
    repeat(' ', upper_end(args).len()) + seq![' ', ' '] + marker_cells(
        args,
        buckets,
        log,
        args.num_labels as nat,
    )
}

/// The exponent of the power that the left edge of bucket `i` takes on a
/// logarithmic value axis: the share of the buckets below it or, where
/// the axis is cut from its upper end, of the others.
pub open spec fn edge_share(args: PlotArgs, i: int) -> Number {
    if args.cut() == Binning::ReverseLogarithmic {
        difference(one(), quotient(of_count(i as u64), of_count(args.height)))
    } else {
        quotient(of_count(i as u64), of_count(args.height))
    }
}

/// The value at the left edge of bucket `i`. On a linear value axis the
/// edges divide the range evenly. On a logarithmic one the edge lies above
/// the least value by one less than its power of the span or, where the
/// axis is cut from its upper end, below the greatest value by as much.
pub open spec fn edge(args: PlotArgs, powers: Option<Seq<Number>>, i: int) -> Number {
    match args.cut() {
        Binning::Linear => linear_edge(args, i as u64),
        Binning::Logarithmic => difference(sum(powers.unwrap()[i], args.min), one()),
        Binning::ReverseLogarithmic => difference(sum(args.max, one()), powers.unwrap()[i]),
    }
}

/// The row of bucket `i`: the value at its left edge, right-justified in
/// the column of edges, a colon and a space, and its bar.
pub open spec fn row(
    args: PlotArgs,
    buckets: Seq<u64>,
    powers: Option<Seq<Number>>,
    log: Option<LogScaleView>,
    i: int,
) -> Seq<char> {
    pad_left(fixed_text(edge(args, powers, i), VALUE_PLACES as nat), upper_end(args).len()) + seq![
        ':',
        ' ',
    ] + bar(buckets[i], bar_length(args, buckets, log, i))
}

/// Whether a bucket with this count has a row.
pub open spec fn shown(args: PlotArgs, count: u64) -> bool {
    !args.omit_empty || count > 0
}

/// The rows of the first `n` buckets, in their order.
pub open spec fn rows(
    args: PlotArgs,
    buckets: Seq<u64>,
    powers: Option<Seq<Number>>,
    log: Option<LogScaleView>,
    n: nat,
) -> Seq<Seq<char>>
    decreases n,
{
    if n == 0 {
        Seq::empty()
    } else if shown(args, buckets[n - 1]) {
        rows(args, buckets, powers, log, (n - 1) as nat).push(row(args, buckets, powers, log, n - 1))
    } else {
        rows(args, buckets, powers, log, (n - 1) as nat)
    }
}

/// The first reason, if any, why these inputs give no histogram. That
/// there is nothing to plot comes before everything else: without a value
/// the configuration is not looked at.
pub open spec fn plot_defect(
    args: PlotArgs,
    buckets: Seq<u64>,
    powers: Option<Seq<Number>>,
    log: Option<LogScaleView>,
) -> Option<PlotError> {
    if peak(buckets) == 0 {
        Some(PlotError::NothingToPlot)
    } else if args.defect() is Some {
        Some(PlotError::Config(args.defect().unwrap()))
    } else if buckets.len() != args.height {
        Some(PlotError::BucketsMismatch)
    } else if args.cut() != Binning::Linear && (powers is None || powers.unwrap().len()
        != buckets.len()) {
        Some(PlotError::PowersMismatch)
    } else if args.log_y && (log is None || log.unwrap().counts.len() != buckets.len()
        || log.unwrap().markers.len() != args.num_labels) {
        Some(PlotError::LogScaleMismatch)
    } else {
        None
    }
}

/// The histogram of these inputs, or the reason why there is none.
pub open spec fn plotted(
    args: PlotArgs,
    buckets: Seq<u64>,
    powers: Option<Seq<Number>>,
    log: Option<LogScaleView>,
) -> Result<HistogramView, PlotError> {
    match plot_defect(args, buckets, powers, log) {
        Some(e) => Err(e),
        None => Ok(
            HistogramView {
                header: header(args, buckets, log),
                rows: rows(args, buckets, powers, log, buckets.len()),
                footer: upper_end(args),
            },
        ),
    }
}

/// The number of buckets among the first `n` that are not empty.
pub open spec fn occupied(buckets: Seq<u64>, n: nat) -> nat
    decreases n,
{
    if n == 0 {
        0
    } else if buckets[n - 1] > 0 {
        occupied(buckets, (n - 1) as nat) + 1
    } else {
        occupied(buckets, (n - 1) as nat)
    }
}

/// A histogram has one row for each bucket, or, where empty buckets are
/// left out, one for each bucket that is not empty.
pub proof fn lemma_row_count(
    args: PlotArgs,
    buckets: Seq<u64>,
    powers: Option<Seq<Number>>,
    log: Option<LogScaleView>,
    n: nat,
)
    ensures
        rows(args, buckets, powers, log, n).len() == if args.omit_empty {
            occupied(buckets, n)
        } else {
            n
        },
    decreases n,
{
    if n > 0 {
        lemma_row_count(args, buckets, powers, log, (n - 1) as nat);
    }
}

/// The peak is a count of some bucket, and no bucket has more.
pub proof fn lemma_peak_is_greatest(buckets: Seq<u64>)
    ensures
        forall|i: int| 0 <= i < buckets.len() ==> buckets[i] <= peak(buckets),
        buckets.len() > 0 ==> exists|i: int| 0 <= i < buckets.len() && buckets[i] == peak(buckets),
    decreases buckets.len(),
{
    if buckets.len() > 0 {
        let front = buckets.drop_last();
        lemma_peak_is_greatest(front);
        assert forall|i: int| 0 <= i < buckets.len() implies buckets[i] <= peak(buckets) by {
            if i < front.len() {
                assert(front[i] == buckets[i]);
            }
        }
        if buckets.last() > peak(front) || front.len() == 0 {
            assert(buckets[buckets.len() - 1] == peak(buckets));
        } else {
            let i = choose|i: int| 0 <= i < front.len() && front[i] == peak(front);
            assert(buckets[i] == peak(buckets));
        }
    }
}

/// The value at the left edge of bucket `i` on a linear axis: the least
/// value and `i` bucket widths of the range.
pub open spec fn linear_edge(args: PlotArgs, i: u64) -> Number {
    sum(
        args.min,
        quotient(product(of_count(i), difference(args.max, args.min)), of_count(args.height)),
    )
}

/// The values at the left edges of the buckets of a linear axis.
pub fn linear_edges(args: &PlotArgs) -> (edges: Vec<Number>)
    ensures
        edges.len() == args.height,
        forall|i: int| 0 <= i < args.height ==> edges[i] == linear_edge(*args, i as u64),
{
    let range = args.max.minus(args.min);
    let buckets = Number::from_count(args.height);
    let mut edges: Vec<Number> = Vec::new();
    let mut i: u64 = 0;
    while i < args.height
        invariant
            i <= args.height,
            edges.len() == i,
            range == difference(args.max, args.min),
            buckets == of_count(args.height),
            forall|k: int| 0 <= k < i ==> edges[k] == linear_edge(*args, k as u64),
        decreases args.height - i,
    {
        edges.push(args.min.plus(Number::from_count(i).times(range).over(buckets)));
        i = i + 1;
    }
    edges
}

/// The exponents of the powers of the span that a logarithmic value axis
/// takes, one for the left edge of each bucket.
pub fn edge_shares(args: &PlotArgs) -> (shares: Vec<Number>)
    ensures
        shares.len() == args.height,
        forall|i: int| 0 <= i < args.height ==> shares[i] == edge_share(*args, i),
{
    let unit = Number { bits: ONE_BITS };
    let buckets = Number::from_count(args.height);
    let binning = args.binning();
    let mut shares: Vec<Number> = Vec::new();
    let mut i: u64 = 0;
    while i < args.height
        invariant
            i <= args.height,
            shares.len() == i,
            unit == one(),
            buckets == of_count(args.height),
            binning == args.cut(),
            forall|k: int| 0 <= k < i ==> shares[k] == edge_share(*args, k),
        decreases args.height - i,
    {
        let below = Number::from_count(i).over(buckets);
        let share = match binning {
            Binning::ReverseLogarithmic => unit.minus(below),
            _ => below,
        };
        shares.push(share);
        i = i + 1;
    }
    shares
}

/// The exponents of the powers of ten that the markers of a logarithmic
/// count axis stand at, from the logarithm to base ten of the peak.
pub fn marker_exponents(args: &PlotArgs, peak_log: Number) -> (exponents: Vec<Number>)
    ensures
        exponents.len() == args.num_labels,
        forall|i: int|
            0 <= i < args.num_labels ==> exponents[i] == marker_exponent(*args, peak_log, i),
{
    let labels = Number::from_count(args.num_labels);
    let mut exponents: Vec<Number> = Vec::new();
    let mut i: u64 = 0;
    while i < args.num_labels
        invariant
            i <= args.num_labels,
            exponents.len() == i,
            labels == of_count(args.num_labels),
            forall|k: int| 0 <= k < i ==> exponents[k] == marker_exponent(*args, peak_log, k),
        decreases args.num_labels - i,
    {
        exponents.push(peak_log.times(Number::from_count(i + 1)).over(labels));
        i = i + 1;
    }
    exponents
}

/// The greatest count.
pub fn peak_of(buckets: &Vec<u64>) -> (top: u64)
    ensures
        top == peak(buckets@),
{
    let mut top: u64 = 0;
    let mut i: usize = 0;
    while i < buckets.len()
        invariant
            i <= buckets.len(),
            top == peak(buckets@.take(i as int)),
        decreases buckets.len() - i,
    {
        assert(buckets@.take(i + 1).drop_last() =~= buckets@.take(i as int));
        if buckets[i] > top {
            top = buckets[i];
        }
        i = i + 1;
    }
    assert(buckets@.take(buckets.len() as int) =~= buckets@);
    top
}

/// Marker `i` of a linear count axis.
fn linear_marker(top: u64, i: u64, num_labels: u64) -> (at: Number)
    requires
        i < num_labels,
    ensures
        at == marker_at(of_count(top), i, num_labels),
{
    Number::from_count(top).times(Number::from_count(i + 1)).over(Number::from_count(num_labels))
}

/// The length of the bar that a tile gives a count, or its logarithm.
fn bar_of(width: u64, top: Number, count: Number) -> (length: u64)
    ensures
        length == product(quotient(of_count(width), top), count).nearest_count(),
{
    Number::from_count(width).over(top).times(count).round_u64()
}

fn header_line(
    args: &PlotArgs,
    buckets: &Vec<u64>,
    top: u64,
    padding: usize,
    log: Option<&LogScale>,
) -> (line: String)
    requires
        args.defect() is None,
        top == peak(buckets@),
        padding == upper_end(*args).len(),
        args.log_y ==> log is Some && log.unwrap().markers.len() == args.num_labels,
    ensures
        line@ == header(*args, buckets@, scale_view(log)),
{
    let cell: u64 = args.width / args.num_labels - 2;
    let mut line = String::new();
    push_spaces(&mut line, padding as u64);
    proof {
        reveal_strlit("  ");
    }
    line.append("  ");
    let ghost start = line@;
    assert(start =~= repeat(' ', upper_end(*args).len()) + seq![' ', ' ']);
    let mut i: u64 = 0;
    while i < args.num_labels
        invariant
            i <= args.num_labels,
            args.defect() is None,
            top == peak(buckets@),
            args.log_y ==> log is Some && log.unwrap().markers.len() == args.num_labels,
            cell == args.cell(),
            line@ == start + marker_cells(*args, buckets@, scale_view(log), i as nat),
        decreases args.num_labels - i,
    {
        let ghost before = line@;
        let ghost text = marker(*args, buckets@, scale_view(log), i as int);
        let at: Number = if args.log_y {
            let scale: &LogScale = log.unwrap();
            let k: usize = i as usize;
            scale.markers[k]
        } else {
            linear_marker(top, i, args.num_labels)
        };
        let written = fixed(at, MARKER_PLACES);
        assert(written@ =~= text);
        push_padded(&mut line, written.as_str(), cell);
        proof {
            reveal_strlit(" |");
        }
        line.append(" |");
        assert(line@ =~= before + pad_left(text, cell as nat) + seq![' ', '|']);
        i = i + 1;
        assert(line@ =~= start + marker_cells(*args, buckets@, scale_view(log), i as nat));
    }
    line
}

/// The values at the left edges of the buckets of a logarithmic axis,
/// from the powers of the span.
fn powered_edges(args: &PlotArgs, powers: &Vec<Number>) -> (edges: Vec<Number>)
    requires
        args.cut() != Binning::Linear,
    ensures
        edges.len() == powers.len(),
        forall|i: int| 0 <= i < powers.len() ==> edges[i] == edge(*args, Some(powers@), i),
{
    let unit = Number { bits: ONE_BITS };
    let binning = args.binning();
    let mut edges: Vec<Number> = Vec::new();
    let mut i: usize = 0;
    while i < powers.len()
        invariant
            i <= powers.len(),
            edges.len() == i,
            unit == one(),
            binning == args.cut(),
            binning != Binning::Linear,
            forall|k: int| 0 <= k < i ==> edges[k] == edge(*args, Some(powers@), k),
        decreases powers.len() - i,
    {
        let value = match binning {
            Binning::ReverseLogarithmic => args.max.plus(unit).minus(powers[i]),
            _ => powers[i].plus(args.min).minus(unit),
        };
        edges.push(value);
        i = i + 1;
    }
    edges
}

fn row_line(
    args: &PlotArgs,
    buckets: &Vec<u64>,
    top: u64,
    padding: usize,
    value: Number,
    powers: Option<&Vec<Number>>,
    log: Option<&LogScale>,
    i: usize,
) -> (line: String)
    requires
        top == peak(buckets@),
        top > 0,
        padding == upper_end(*args).len(),
        i < buckets.len(),
        value == edge(*args, powers_view(powers), i as int),
        args.log_y ==> log is Some && log.unwrap().counts.len() == buckets.len(),
    ensures
        line@ == row(*args, buckets@, powers_view(powers), scale_view(log), i as int),
{
    let count: u64 = buckets[i];
    let text = fixed(value, VALUE_PLACES);
    let mut line = String::new();
    push_padded(&mut line, text.as_str(), padding as u64);
    proof {
        reveal_strlit(": ");
        reveal_strlit("#");
        reveal_strlit("X");
    }
    line.append(": ");
    let ghost start = line@;
    assert(start =~= pad_left(
        fixed_text(edge(*args, powers_view(powers), i as int), VALUE_PLACES as nat),
        padding as nat,
    ) + seq![':', ' ']);
    if count > 1 {
        let length: u64 = if args.log_y {
            let scale: &LogScale = log.unwrap();
            bar_of(args.width, scale.peak, scale.counts[i])
        } else {
            bar_of(args.width, Number::from_count(top), Number::from_count(count))
        };
        assert(length == bar_length(*args, buckets@, scale_view(log), i as int));
        push_copies(&mut line, "#", length as u128);
    } else if count == 1 {
        line.append("X");
    }
    assert(line@ =~= row(*args, buckets@, powers_view(powers), scale_view(log), i as int));
    line
}

/// Lays out the histogram of `buckets`.
///
/// On a linear value axis the values at the edges of the buckets are
/// computed from the range. On a logarithmic one they are computed from
/// `powers`, which holds the span of the range to the power of each of
/// `edge_shares`. On a linear count axis the bars and the markers are
/// computed from the counts. On a logarithmic one `log` holds the
/// logarithms of the counts and of the peak, and ten to the power of each
/// of `marker_exponents`. What is handed in without need is not read.
pub fn plot(
    args: &PlotArgs,
    buckets: &Vec<u64>,
    powers: Option<&Vec<Number>>,
    log: Option<&LogScale>,
) -> (r: Result<Histogram, PlotError>)
    ensures
        r matches Ok(h) ==> plotted(*args, buckets@, powers_view(powers), scale_view(log)) == Ok::<
            HistogramView,
            PlotError,
        >(h@),
        r matches Err(e) ==> plotted(*args, buckets@, powers_view(powers), scale_view(log))
            == Err::<HistogramView, PlotError>(e),
{
    let top: u64 = peak_of(buckets);
    if top == 0 {
        return Err(PlotError::NothingToPlot);
    }
    match args.check() {
        Err(e) => {
            return Err(PlotError::Config(e));
        },
        Ok(_) => {},
    }
    if buckets.len() as u64 != args.height {
        return Err(PlotError::BucketsMismatch);
    }
    let edges: Vec<Number> = match args.binning() {
        Binning::Linear => linear_edges(args),
        _ => {
            match powers {
                None => {
                    return Err(PlotError::PowersMismatch);
                },
                Some(values) => {
                    if values.len() != buckets.len() {
                        return Err(PlotError::PowersMismatch);
                    }
                    powered_edges(args, values)
                },
            }
        },
    };
    if args.log_y {
        match log {
            None => {
                return Err(PlotError::LogScaleMismatch);
            },
            Some(scale) => {
                if scale.counts.len() != buckets.len() || scale.markers.len() as u64
                    != args.num_labels {
                    return Err(PlotError::LogScaleMismatch);
                }
            },
        }
    }
    let footer = fixed(args.max, VALUE_PLACES);
    let padding: usize = footer.as_str().unicode_len();
    let header = header_line(args, buckets, top, padding, log);
    let mut lines: Vec<String> = Vec::new();
    let mut i: usize = 0;
    while i < buckets.len()
        invariant
            i <= buckets.len(),
            top == peak(buckets@),
            top > 0,
            padding == upper_end(*args).len(),
            buckets.len() == args.height,
            edges.len() == buckets.len(),
            forall|k: int|
                0 <= k < edges.len() ==> edges[k] == edge(*args, powers_view(powers), k),
            args.log_y ==> log is Some && log.unwrap().counts.len() == buckets.len(),
            texts(lines@) == rows(
                *args,
                buckets@,
                powers_view(powers),
                scale_view(log),
                i as nat,
            ),
        decreases buckets.len() - i,
    {
        if !args.omit_empty || buckets[i] > 0 {
            let ghost before = lines@;
            let line = row_line(args, buckets, top, padding, edges[i], powers, log, i);
            lines.push(line);
            assert(texts(lines@) =~= texts(before).push(line@));
        }
        i = i + 1;
    }
    Ok(Histogram { header, rows: lines, footer })
}

} // verus!
