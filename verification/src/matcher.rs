//! Testing a complete pattern against example strings. Compiling a pattern
//! and matching one string are left to the `regex` crate; what is decided
//! from the answers is decided here.
use vstd::prelude::*;
use vstd::string::*;
use regex::Regex;

verus! {

/// `regex::Regex`, a compiled expression: carried through, never looked
/// into.
#[verifier::external_type_specification]
#[verifier::external_body]
pub struct ExRegex(regex::Regex);

/// `regex::Error`, the reason for which a pattern was refused: carried
/// through, never looked into.
#[verifier::external_type_specification]
#[verifier::external_body]
pub struct ExRegexError(regex::Error);

/// What `regex::Regex::new` makes of a pattern: the compiled expression, or
/// nothing where the pattern is refused.
pub uninterp spec fn regex_new(pattern: Seq<char>) -> Option<Regex>;

/// What `regex::Regex::is_match` answers for a compiled expression and a
/// string.
pub uninterp spec fn regex_is_match(re: Regex, haystack: Seq<char>) -> bool;

/// The pattern compiles.
pub open spec fn compiles(pattern: Seq<char>) -> bool {
    regex_new(pattern) is Some
}

/// The pattern compiles and matches `text`.
pub open spec fn accepts(pattern: Seq<char>, text: Seq<char>) -> bool {
    regex_new(pattern) is Some && regex_is_match(regex_new(pattern)->0, text)
}

/// The pattern matches every string of `set`.
pub open spec fn accepts_all(pattern: Seq<char>, set: Seq<String>) -> bool {
    forall|i: int| 0 <= i < set.len() ==> accepts(pattern, (#[trigger] set[i])@)
}

/// The pattern matches no string of `set`.
pub open spec fn accepts_none(pattern: Seq<char>, set: Seq<String>) -> bool {
    forall|i: int| 0 <= i < set.len() ==> !accepts(pattern, (#[trigger] set[i])@)
}

/// Calls `regex::Regex::new`. Claims that the outcome depends on the pattern
/// alone: the same pattern is refused every time, or gives an expression
/// that answers every match question the same way every time.
#[verifier::external_body]
fn compile(pattern: &str) -> (r: Result<Regex, regex::Error>)
    ensures
        match r {
            Ok(re) => regex_new(pattern@) == Some(re),
            Err(_) => regex_new(pattern@) is None,
        },
{
    Regex::new(pattern)
}

/// Calls `regex::Regex::is_match`, which says whether the expression matches
/// anywhere in the string. Claims that the answer depends on the expression
/// and the string alone.
#[verifier::external_body]
fn is_match(re: &Regex, haystack: &str) -> (b: bool)
    ensures
        b == regex_is_match(*re, haystack@),
{
    re.is_match(haystack)
}

/// Whether the pattern compiles.
pub fn pattern_compiles(regexp: &str) -> (b: bool)
    ensures
        b == compiles(regexp@),
{
    match compile(regexp) {
        Ok(_) => true,
        Err(_) => false,
    }
}

/// Whether a compiled expression matches every string of `set`.
pub fn all_match(re: &Regex, set: &Vec<String>) -> (b: bool)
    ensures
        b == (forall|i: int| 0 <= i < set@.len() ==> regex_is_match(*re, (#[trigger] set@[i])@)),
{
    let mut i: usize = 0;
    while i < set.len()
        invariant
            i <= set@.len(),
            forall|k: int| 0 <= k < i ==> regex_is_match(*re, (#[trigger] set@[k])@),
        decreases set@.len() - i,
    {
        if !is_match(re, set[i].as_str()) {
            return false;
        }
        i += 1;
    }
    true
}

/// Whether a compiled expression matches no string of `set`.
pub fn none_match(re: &Regex, set: &Vec<String>) -> (b: bool)
    ensures
        b == (forall|i: int| 0 <= i < set@.len() ==> !regex_is_match(*re, (#[trigger] set@[i])@)),
{
    let mut i: usize = 0;
    while i < set.len()
        invariant
            i <= set@.len(),
            forall|k: int| 0 <= k < i ==> !regex_is_match(*re, (#[trigger] set@[k])@),
        decreases set@.len() - i,
    {
        if is_match(re, set[i].as_str()) {
            return false;
        }
        i += 1;
    }
    true
}

/// Whether the pattern matches every string of `positive_set`. The pattern is
/// compiled once. A pattern matches a string when it matches some part of it:
/// a pattern that is to match whole strings only starts with `^` and ends
/// with `$`. Every pattern of the search does: it is part of what holds of
/// each of its states.
pub fn match_all(regexp: &str, positive_set: &Vec<String>) -> (b: bool)
    requires
        compiles(regexp@),
    ensures
        b == accepts_all(regexp@, positive_set@),
{
    match compile(regexp) {
        Ok(re) => all_match(&re, positive_set),
        Err(_) => false,
    }
}

/// Whether the pattern matches no string of `negative_set`. The pattern is
/// compiled once.
pub fn match_none(regexp: &str, negative_set: &Vec<String>) -> (b: bool)
    requires
        compiles(regexp@),
    ensures
        b == accepts_none(regexp@, negative_set@),
{
    match compile(regexp) {
        Ok(re) => none_match(&re, negative_set),
        Err(_) => false,
    }
}

/// [`match_all`] for any pattern: nothing where the pattern does not compile.
pub fn try_match_all(regexp: &str, positive_set: &Vec<String>) -> (r: Option<bool>)
    ensures
        match r {
            Some(b) => compiles(regexp@) && b == accepts_all(regexp@, positive_set@),
            None => !compiles(regexp@),
        },
{
    if pattern_compiles(regexp) {
        Some(match_all(regexp, positive_set))
    } else {
        None
    }
}

/// [`match_none`] for any pattern: nothing where the pattern does not
/// compile.
pub fn try_match_none(regexp: &str, negative_set: &Vec<String>) -> (r: Option<bool>)
    ensures
        match r {
            Some(b) => compiles(regexp@) && b == accepts_none(regexp@, negative_set@),
            None => !compiles(regexp@),
        },
{
    if pattern_compiles(regexp) {
        Some(match_none(regexp, negative_set))
    } else {
        None
    }
}

/// What testing a complete pattern against both example sets gave.
#[derive(Clone, Copy, Debug, PartialEq, Eq, Structural)]
pub enum Acceptance {
    /// The pattern does not compile.
    Invalid,
    /// It misses a positive example or matches a negative one.
    Rejected,
    /// It matches every positive example and no negative one.
    Accepted,
}

/// The verdict on a pattern, as plain values.
pub open spec fn acceptance(pattern: Seq<char>, positive: Seq<String>, negative: Seq<String>) -> Acceptance {
    if !compiles(pattern) {
        Acceptance::Invalid
    } else if accepts_all(pattern, positive) && accepts_none(pattern, negative) {
        Acceptance::Accepted
    } else {
        Acceptance::Rejected
    }
}

/// Tests a pattern against both example sets, compiling it once.
pub fn judge(regexp: &str, positive_set: &Vec<String>, negative_set: &Vec<String>) -> (a: Acceptance)
    ensures
        a == acceptance(regexp@, positive_set@, negative_set@),
{
    match compile(regexp) {
        Ok(re) => {
            if all_match(&re, positive_set) && none_match(&re, negative_set) {
                Acceptance::Accepted
            } else {
                Acceptance::Rejected
            }
        },
        Err(_) => Acceptance::Invalid,
    }
}

} // verus!
