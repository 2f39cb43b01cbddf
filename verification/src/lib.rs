//! Summary statistics, threshold filtering and terminal histograms for a
//! stream of numbers.
//!
//! A stream is a sequence of text lines, one number on each. The library
//! reads the numbers, keeps count, range and sum of them, estimates their
//! mean and variance in one pass, filters them by bounds, tallies them into
//! buckets and lays the buckets out as a histogram.
//!
//! Numbers are IEEE-754 binary64 values, held as their bit patterns
//! ([`number::Number`]). Their order, their arithmetic, their text and the
//! reading of their text are defined here in whole numbers: a finite number
//! is a whole multiple of the smallest positive number, every operation
//! gives the number nearest to the exact result, a text gives the number
//! nearest to its exact decimal value, and a number gives the shortest text
//! that reads back as it.
//!
//! Logarithms and powers are left to the caller. For a logarithmic axis
//! the library tells what they are to be taken of, takes the results, and
//! computes the positions and the edges of the value axis and the bars
//! and the markers of the count axis from them.
//!
//! The modules, from the ground up:
//!
//! - [`rounding`]: powers and rounded quotients of whole numbers;
//! - [`number`]: the bit patterns, their values and their order;
//! - [`nearest`]: rounding a quantity to the nearest number;
//! - [`arith`]: sum, difference, product, quotient and square root;
//! - [`order`]: the arithmetic keeps the order of its operands;
//! - [`text`], [`decimal`]: numerals and long decimal arithmetic;
//! - [`conversion`], [`parse`]: from decimal text to numbers;
//! - [`fixed`], [`shortest`]: from numbers to decimal text;
//! - [`streaming_variance`], [`summary`]: the statistics and their report;
//! - [`accuracy`]: how near the estimated mean is to the arithmetic mean;
//! - [`filter`]: the threshold filter;
//! - [`bucket`], [`plot`]: the histogram;
//! - [`matches`]: what is read of the command line.

pub mod accuracy;
pub mod arith;
pub mod bucket;
pub mod conversion;
pub mod decimal;
pub mod filter;
pub mod fixed;
pub mod matches;
pub mod nearest;
pub mod number;
pub mod order;
pub mod parse;
pub mod plot;
pub mod rounding;
pub mod shortest;
pub mod streaming_variance;
pub mod summary;
pub mod text;
