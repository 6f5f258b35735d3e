//! Regular expressions: what a pattern finds in a text.

use crate::text;
use vstd::prelude::*;

verus! {

broadcast use vstd::string::group_string_axioms;

/// What is wrong with a pattern.
#[verifier::external_type_specification]
#[verifier::external_body]
pub struct ExError(regex::Error);

/// `regex::Regex::new` accepts the pattern.
pub uninterp spec fn compiles(pattern: Seq<char>) -> bool;

/// The text of group 1 in the first match of a pattern, as
/// `regex::Regex::captures` finds it.
pub uninterp spec fn first_group(pattern: Seq<char>, text: Seq<char>) -> Option<Seq<char>>;

/// The text of group 1 in each match of a pattern, as
/// `regex::Regex::captures_iter` finds them; None in a match that the group has
/// no part in.
pub uninterp spec fn groups(pattern: Seq<char>, text: Seq<char>) -> Seq<Option<Seq<char>>>;

/// The matches of a pattern, as `regex::Regex::find_iter` finds them.
pub uninterp spec fn matches_of(pattern: Seq<char>, text: Seq<char>) -> Seq<Seq<char>>;

/// The contents of a list of optional strings.
pub open spec fn opt_strs(v: Seq<Option<String>>) -> Seq<Option<Seq<char>>> {
    Seq::new(v.len(), |i: int| text::opt_str(v[i]))
}

/// Compiles a pattern with `regex::Regex::new`. Whether it is accepted depends on
/// the pattern alone.
#[verifier::external_body]
fn compile(pattern: &str) -> (r: Result<(), regex::Error>)
    ensures
        r is Ok <==> compiles(pattern@),
{
    match regex::Regex::new(pattern) {
        Ok(_) => Ok(()),
        Err(e) => Err(e),
    }
}

/// Group 1 of the first match, by `regex::Regex::captures`. What is found depends
/// on the pattern and the text alone.
#[verifier::external_body]
pub(crate) fn find_first_group(pattern: &str, text: &str) -> (r: Option<String>)
    requires
        compiles(pattern@),
    ensures
        text::opt_str(r) == first_group(pattern@, text@),
{
    let re = regex::Regex::new(pattern).unwrap();
    match re.captures(text) {
        Some(c) => c.get(1).map(|m| m.as_str().to_owned()),
        None => None,
    }
}

/// Group 1 of each match, by `regex::Regex::captures_iter`. What is found depends
/// on the pattern and the text alone.
#[verifier::external_body]
pub(crate) fn find_groups(pattern: &str, text: &str) -> (r: Vec<Option<String>>)
    requires
        compiles(pattern@),
    ensures
        opt_strs(r@) == groups(pattern@, text@),
{
    let re = regex::Regex::new(pattern).unwrap();
    re.captures_iter(text).map(|c| c.get(1).map(|m| m.as_str().to_owned())).collect()
}

/// Each match, by `regex::Regex::find_iter`. What is found depends on the pattern
/// and the text alone.
#[verifier::external_body]
pub(crate) fn find_matches(pattern: &str, text: &str) -> (r: Vec<String>)
    requires
        compiles(pattern@),
    ensures
        text::strs(r@) == matches_of(pattern@, text@),
{
    let re = regex::Regex::new(pattern).unwrap();
    re.find_iter(text).map(|m| m.as_str().to_owned()).collect()
}

/// A pattern that was rejected, with the reason.
pub struct BadPattern {
    pub cause: regex::Error,
}

/// Tells whether a pattern is accepted.
pub fn check(pattern: &str) -> (r: Result<(), BadPattern>)
    ensures
        r is Ok <==> compiles(pattern@),
{
    match compile(pattern) {
        Ok(()) => Ok(()),
        Err(cause) => Err(BadPattern { cause }),
    }
}

} // verus!
