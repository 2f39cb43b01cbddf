//! The threshold filter: which lines of a stream pass two optional bounds.
//!
//! A line passes if its text stands for a number and the number is neither
//! below the lower bound nor above the upper one. What passes is the text
//! as it arrived, not the number that was read from it.

use crate::matches::{first_value, value_of};
use crate::number::Number;
use crate::parse::{parse_number, parsed_number};
use crate::text::{text_of, texts};
use clap::ArgMatches;
use vstd::prelude::*;
use vstd::string::*;

verus! {

/// The bounds of the filter. An absent bound sets no limit on its side.
#[derive(Clone, Copy, Debug)]
pub struct Threshold {
    /// Values below this are dropped.
    pub lower: Option<Number>,
    /// Values above this are dropped.
    pub upper: Option<Number>,
}

/// A bound whose text stands for no number.
#[derive(Clone, Copy, Debug, PartialEq, Eq, Structural)]
pub enum BoundError {
    /// The value of `less-than`.
    LessThan,
    /// The value of `greater-than`.
    GreaterThan,
}

/// What the filter makes of a line.
#[derive(Clone, Copy, Debug, PartialEq, Eq, Structural)]
pub enum Verdict {
    /// The line stands for a number within the bounds.
    Passed,
    /// The line stands for a number outside the bounds.
    Dropped,
    /// The line stands for no number.
    NotANumber,
}

/// The bounds as the command line gives them, before they are read as
/// numbers.
#[derive(Debug)]
pub struct BoundTexts {
    pub lower: Option<String>,
    pub upper: Option<String>,
}

/// The bound that a text stands for; no text is no bound.
pub open spec fn bound_of(text: Option<Seq<char>>) -> Option<Option<Number>> {
    match text {
        None => Some(None),
        Some(t) => match parsed_number(t) {
            Some(n) => Some(Some(n)),
            None => None,
        },
    }
}

impl Threshold {
    /// A value passes unless it is below the lower bound or above the upper.
    pub open spec fn admits(self, value: Number) -> bool {
        &&& self.lower matches Some(lower) ==> !value.below(lower)
        &&& self.upper matches Some(upper) ==> !value.above(upper)
    }

    /// What the filter makes of a line.
    pub open spec fn verdict(self, line: Seq<char>) -> Verdict {
        match parsed_number(line) {
            None => Verdict::NotANumber,
            Some(value) => if self.admits(value) {
                Verdict::Passed
            } else {
                Verdict::Dropped
            },
        }
    }

    /// The bounds that two texts stand for. The upper bound is read first:
    /// where neither text stands for a number, the upper one is reported.
    pub open spec fn read(lower: Option<Seq<char>>, upper: Option<Seq<char>>) -> Result<
        Threshold,
        BoundError,
    > {
        match bound_of(upper) {
            None => Err(BoundError::LessThan),
            Some(upper) => match bound_of(lower) {
                None => Err(BoundError::GreaterThan),
                Some(lower) => Ok(Threshold { lower, upper }),
            },
        }
    }

    /// Whether `value` passes the bounds.
    pub fn passes(&self, value: Number) -> (r: bool)
        ensures
            r == self.admits(value),
    {
        if let Some(lower) = self.lower {
            if value.less_than(lower) {
                return false;
            }
        }
        if let Some(upper) = self.upper {
            if value.greater_than(upper) {
                return false;
            }
        }
        true
    }

    /// What the filter makes of a line.
    pub fn judge(&self, line: &str) -> (v: Verdict)
        ensures
            v == self.verdict(line@),
    {
        match parse_number(line) {
            None => Verdict::NotANumber,
            Some(value) => if self.passes(value) {
                Verdict::Passed
            } else {
                Verdict::Dropped
            },
        }
    }

    /// Reads the bounds from their texts.
    pub fn from_texts(bounds: &BoundTexts) -> (r: Result<Threshold, BoundError>)
        ensures
            r == Threshold::read(text_of(bounds.lower), text_of(bounds.upper)),
    {
        let upper = match &bounds.upper {
            None => None,
            Some(text) => match parse_number(text.as_str()) {
                Some(n) => Some(n),
                None => {
                    return Err(BoundError::LessThan);
                },
            },
        };
        let lower = match &bounds.lower {
            None => None,
            Some(text) => match parse_number(text.as_str()) {
                Some(n) => Some(n),
                None => {
                    return Err(BoundError::GreaterThan);
                },
            },
        };
        Ok(Threshold { lower, upper })
    }

    /// Reads the bounds that the command line matched.
    pub fn new(filter_matches: &ArgMatches) -> (r: Result<Threshold, BoundError>)
        ensures
            r == Threshold::read(
                first_value(*filter_matches, "greater-than"@),
                first_value(*filter_matches, "less-than"@),
            ),
    {
        let texts = bound_texts(filter_matches);
        Threshold::from_texts(&texts)
    }
}

/// The bounds that the command line matched: the lower bound is the value
/// of `greater-than`, the upper bound the value of `less-than`.
pub fn bound_texts(filter_matches: &ArgMatches) -> (bounds: BoundTexts)
    ensures
        text_of(bounds.lower) == first_value(*filter_matches, "greater-than"@),
        text_of(bounds.upper) == first_value(*filter_matches, "less-than"@),
{
    BoundTexts {
        lower: value_of(filter_matches, "greater-than"),
        upper: value_of(filter_matches, "less-than"),
    }
}

/// The lines that pass, in the order of their arrival.
pub open spec fn passed(lines: Seq<Seq<char>>, bounds: Threshold) -> Seq<Seq<char>>
    decreases lines.len(),
{
    if lines.len() == 0 {
        Seq::empty()
    } else if bounds.verdict(lines.last()) == Verdict::Passed {
        passed(lines.drop_last(), bounds).push(lines.last())
    } else {
        passed(lines.drop_last(), bounds)
    }
}

/// The positions of the lines that pass, in rising order.
pub open spec fn passing(lines: Seq<Seq<char>>, bounds: Threshold) -> Seq<int>
    decreases lines.len(),
{
    if lines.len() == 0 {
        Seq::empty()
    } else if bounds.verdict(lines.last()) == Verdict::Passed {
        passing(lines.drop_last(), bounds).push(lines.len() - 1)
    } else {
        passing(lines.drop_last(), bounds)
    }
}

/// `part` stands in `whole` at the positions `at`, which rise strictly.
pub open spec fn embeds(part: Seq<Seq<char>>, whole: Seq<Seq<char>>, at: Seq<int>) -> bool {
    &&& at.len() == part.len()
    &&& forall|k: int| 0 <= k < at.len() ==> 0 <= #[trigger] at[k] < whole.len()
    &&& forall|k: int| 0 <= k < at.len() ==> #[trigger] part[k] == whole[at[k]]
    &&& forall|k: int, l: int| 0 <= k < l < at.len() ==> #[trigger] at[k] < #[trigger] at[l]
}

/// `part` is `whole` with some items left out: what stays keeps its order
/// and is unchanged.
pub open spec fn is_subsequence(part: Seq<Seq<char>>, whole: Seq<Seq<char>>) -> bool {
    exists|at: Seq<int>| embeds(part, whole, at)
}

/// What passes stands in the stream at the positions of the passing lines,
/// and the lines at these positions are the lines that pass.
pub proof fn lemma_passed_embeds(lines: Seq<Seq<char>>, bounds: Threshold)
    ensures
        embeds(passed(lines, bounds), lines, passing(lines, bounds)),
        forall|k: int|
            0 <= k < passing(lines, bounds).len() ==> bounds.verdict(
                lines[#[trigger] passing(lines, bounds)[k]],
            ) == Verdict::Passed,
    decreases lines.len(),
{
    if lines.len() > 0 {
        let front = lines.drop_last();
        lemma_passed_embeds(front, bounds);
        let at = passing(lines, bounds);
        let part = passed(lines, bounds);
        assert forall|k: int| 0 <= k < at.len() implies #[trigger] part[k] == lines[at[k]] by {
            if k < passing(front, bounds).len() {
                assert(passed(front, bounds)[k] == front[passing(front, bounds)[k]]);
            }
        }
        assert forall|k: int| 0 <= k < at.len() implies bounds.verdict(lines[#[trigger] at[k]])
            == Verdict::Passed by {
            if k < passing(front, bounds).len() {
                assert(bounds.verdict(front[passing(front, bounds)[k]]) == Verdict::Passed);
            }
        }
    }
}

/// Filtering leaves lines out and does nothing else: the lines that pass
/// keep their order, and each is the text that arrived.
pub proof fn lemma_filter_is_subsequence(lines: Seq<Seq<char>>, bounds: Threshold)
    ensures
        is_subsequence(passed(lines, bounds), lines),
{
    lemma_passed_embeds(lines, bounds);
}

/// Line by line: a line that passes is added to what passed, and every
/// other line adds nothing.
pub proof fn lemma_passed_step(lines: Seq<Seq<char>>, line: Seq<char>, bounds: Threshold)
    ensures
        passed(lines.push(line), bounds) == if bounds.verdict(line) == Verdict::Passed {
            passed(lines, bounds).push(line)
        } else {
            passed(lines, bounds)
        },
{
    assert(lines.push(line).drop_last() =~= lines);
}

/// The lines that pass the bounds, in the order of their arrival and as
/// they arrived.
pub fn filter(lines: &Vec<String>, bounds: &Threshold) -> (out: Vec<String>)
    ensures
        texts(out@) == passed(texts(lines@), *bounds),
{
    let mut out: Vec<String> = Vec::new();
    let mut i: usize = 0;
    let ghost all = texts(lines@);
    assert(all.take(0) =~= Seq::<Seq<char>>::empty());
    while i < lines.len()
        invariant
            i <= lines.len(),
            all == texts(lines@),
            texts(out@) == passed(all.take(i as int), *bounds),
        decreases lines.len() - i,
    {
        assert(all.take(i + 1).drop_last() =~= all.take(i as int));
        assert(all.take(i + 1).last() == lines[i as int]@);
        match bounds.judge(lines[i].as_str()) {
            Verdict::Passed => {
                let ghost before = out@;
                let text = lines[i].clone();
                out.push(text);
                assert(texts(out@) =~= texts(before).push(lines[i as int]@));
            },
            _ => {},
        }
        i = i + 1;
    }
    assert(all.take(lines.len() as int) =~= all);
    out
}

} // verus!
