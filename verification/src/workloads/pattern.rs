//! Patterns of `regex`.

use vstd::prelude::*;

verus! {

/// The pattern type of `regex`.
#[verifier::external_type_specification]
#[verifier::external_body]
pub struct ExRegex(regex::Regex);

/// What a pattern was compiled from.
pub uninterp spec fn pattern_of(pattern: regex::Regex) -> Seq<char>;

/// A text is a pattern.
pub uninterp spec fn is_pattern(text: Seq<char>) -> bool;

/// `regex::Regex::new`: the pattern that a text describes, or nothing when it is none.
#[verifier::external_body]
pub(crate) fn compile(text: &str) -> (pattern: Option<regex::Regex>)
    ensures
        match pattern {
            Some(pattern) => is_pattern(text@) && pattern_of(pattern) == text@,
            None => !is_pattern(text@),
        },
{
    regex::Regex::new(text).ok()
}

} // verus!
