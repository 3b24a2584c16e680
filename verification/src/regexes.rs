//! Regular-expression matching for the `RegexMatch` operator.
//!
//! Matching is done by the `regex` crate. Whether a pattern is valid and
//! whether it matches a given text are functions of the two strings
//! alone, so both results are given names that contracts can speak of.

use vstd::prelude::*;

verus! {

/// Whether `p` is a valid pattern, i.e. whether `regex::Regex::new`
/// accepts it.
pub uninterp spec fn regex_valid(p: Seq<char>) -> bool;

/// Whether the pattern `p` matches somewhere in the text `t`.
pub uninterp spec fn regex_match_of(p: Seq<char>, t: Seq<char>) -> bool;

/// Relies on `regex::Regex::new`: succeeds exactly on valid patterns.
#[verifier::external_body]
pub fn regex_check(p: &str) -> (r: bool)
    ensures
        r == regex_valid(p@),
{
    regex::Regex::new(p).is_ok()
}

/// Relies on `regex::Regex::new` and `regex::Regex::is_match`: whether
/// the compiled pattern matches somewhere in `t`.
#[verifier::external_body]
pub fn regex_match(p: &str, t: &str) -> (r: bool)
    requires
        regex_valid(p@),
    ensures
        r == regex_match_of(p@, t@),
{
    match regex::Regex::new(p) {
        Ok(re) => re.is_match(t),
        Err(_) => false,
    }
}

} // verus!
