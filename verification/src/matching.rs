//! Regular expressions on text, matched by the regex crate.
//!
//! Each function compiles its pattern and runs one matching method of
//! `regex::Regex`. A pattern that does not compile matches nothing.

use vstd::prelude::*;

verus! {

/// Whether the regular expression `pattern` matches somewhere in `haystack`.
pub uninterp spec fn regex_matches(pattern: Seq<char>, haystack: Seq<char>) -> bool;

/// regex's `Regex::new(pattern)` and `is_match(haystack)`: whether some part of
/// the haystack matches; `false` where the pattern does not compile. Claimed:
/// the result is `regex_matches` of the two arguments, a function of them alone.
#[verifier::external_body]
pub(crate) fn regex_is_match(pattern: &str, haystack: &str) -> (r: bool)
    ensures
        r == regex_matches(pattern@, haystack@),
{
    match regex::Regex::new(pattern) {
        Ok(re) => re.is_match(haystack),
        Err(_) => false,
    }
}

/// What capture group `group` of the leftmost-first match of `pattern` takes
/// from `haystack`.
pub uninterp spec fn regex_group_of(pattern: Seq<char>, haystack: Seq<char>, group: nat) -> Option<
    Seq<char>,
>;

/// regex's `Regex::new(pattern)`, `captures(haystack)` and `get(group)`: the text
/// that the group takes in the leftmost-first match. `None` where the pattern
/// does not compile, nothing matches or the group takes no part. Claimed: the
/// result is `regex_group_of` the three arguments, a function of them alone.
#[verifier::external_body]
pub(crate) fn regex_group(pattern: &str, haystack: &str, group: usize) -> (r: Option<String>)
    ensures
        match r {
            Some(v) => regex_group_of(pattern@, haystack@, group as nat) == Some(v@),
            None => regex_group_of(pattern@, haystack@, group as nat) is None,
        },
{
    let re = match regex::Regex::new(pattern) {
        Ok(re) => re,
        Err(_) => return None,
    };
    let captures = re.captures(haystack)?;
    let found = captures.get(group)?;
    Some(found.as_str().to_string())
}

/// `haystack` with the leftmost-first match of `pattern` replaced by `replacement`.
pub uninterp spec fn regex_replaced_first(
    pattern: Seq<char>,
    haystack: Seq<char>,
    replacement: Seq<char>,
) -> Seq<char>;

/// regex's `Regex::new(pattern)` and `replace(haystack, replacement)`: the
/// haystack with its first match replaced (`$` in the replacement names a
/// group); the haystack unchanged where the pattern does not compile. Claimed:
/// the result is `regex_replaced_first` of the three arguments, a function of
/// them alone.
#[verifier::external_body]
pub(crate) fn regex_replace_first(pattern: &str, haystack: &str, replacement: &str) -> (r: String)
    ensures
        r@ == regex_replaced_first(pattern@, haystack@, replacement@),
{
    match regex::Regex::new(pattern) {
        Ok(re) => re.replace(haystack, replacement).into_owned(),
        Err(_) => haystack.to_string(),
    }
}

/// `haystack` with every non-overlapping match of `pattern` replaced by `replacement`.
pub uninterp spec fn regex_replaced_all(
    pattern: Seq<char>,
    haystack: Seq<char>,
    replacement: Seq<char>,
) -> Seq<char>;

/// regex's `Regex::new(pattern)` and `replace_all(haystack, replacement)`: the
/// haystack with each non-overlapping match, from left to right, replaced (`$`
/// in the replacement names a group); the haystack unchanged where the pattern
/// does not compile. Claimed: the result is `regex_replaced_all` of the three
/// arguments, a function of them alone.
#[verifier::external_body]
pub(crate) fn regex_replace_all(pattern: &str, haystack: &str, replacement: &str) -> (r: String)
    ensures
        r@ == regex_replaced_all(pattern@, haystack@, replacement@),
{
    match regex::Regex::new(pattern) {
        Ok(re) => re.replace_all(haystack, replacement).into_owned(),
        Err(_) => haystack.to_string(),
    }
}

} // verus!
