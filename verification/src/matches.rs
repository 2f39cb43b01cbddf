//! What the command line matched, as far as the library reads it.

use clap::ArgMatches;
use vstd::prelude::*;

verus! {

/// clap's `ArgMatches`: what a command line matched. Nothing inside it is
/// seen here; it is read through `value_of` and `is_present` alone.
#[verifier::external_type_specification]
#[verifier::external_body]
pub struct ExArgMatches<'a>(ArgMatches<'a>);

/// For each argument that was matched with a value: its first value, as
/// text.
pub uninterp spec fn first_values(matches: ArgMatches) -> Map<Seq<char>, Seq<char>>;

/// The names that are present among the matches.
pub uninterp spec fn present(matches: ArgMatches) -> Set<Seq<char>>;

/// The first value of `name`, if it has one.
pub open spec fn first_value(matches: ArgMatches, name: Seq<char>) -> Option<Seq<char>> {
    if first_values(matches).contains_key(name) {
        Some(first_values(matches)[name])
    } else {
        None
    }
}

/// `ArgMatches::value_of_lossy`: the first value that was matched for the
/// argument `name`, or none where the argument was not matched or has no
/// value. The text is the value itself; bytes of it that are not UTF-8 come
/// out as U+FFFD. This is believed of clap, not proved.
#[verifier::external_body]
pub(crate) fn value_of(matches: &ArgMatches, name: &str) -> (value: Option<String>)
    ensures
        value is Some <==> first_values(*matches).contains_key(name@),
        value matches Some(text) ==> text@ == first_values(*matches)[name@],
{
    match matches.value_of_lossy(name) {
        Some(text) => Some(text.into_owned()),
        None => None,
    }
}

/// `ArgMatches::is_present`: whether `name` is present among the matches.
/// This is believed of clap, not proved.
#[verifier::external_body]
pub(crate) fn is_present(matches: &ArgMatches, name: &str) -> (r: bool)
    ensures
        r == present(*matches).contains(name@),
{
    matches.is_present(name)
}

} // verus!
