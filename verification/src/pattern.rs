//! The binding to the `regex` crate: a compiled pattern, and what is taken
//! on trust about the functions of that crate.

use vstd::prelude::*;

verus! {

/// `regex::Regex`, a compiled expression: carried about, never looked into.
#[verifier::external_type_specification]
#[verifier::external_body]
pub struct ExRegex(regex::Regex);

/// `regex::Error`, the reason why a pattern was refused: never looked into.
#[verifier::external_type_specification]
#[verifier::external_body]
pub struct ExRegexError(regex::Error);

/// The pattern text that a compiled expression was built from: what
/// `regex::Regex::as_str` returns for it.
pub uninterp spec fn regex_source(re: regex::Regex) -> Seq<char>;

/// Every occurrence of `pattern` in `haystack`, as `regex::Regex::captures_iter`
/// yields them for an expression that `regex::Regex::new` built from
/// `pattern`: successive non-overlapping matches from left to right, each one
/// listing the text of its capture groups by index (group 0 is the whole
/// match), with `None` for a group that took no part in the match.
pub uninterp spec fn captures_in(pattern: Seq<char>, haystack: Seq<char>) -> Seq<
    Seq<Option<Seq<char>>>,
>;

/// Whether `regex::Regex::new` accepts `pattern`: whether the text is a
/// well-formed expression whose compiled form stays within the size limit
/// that this function sets. The function reads nothing but the text it is
/// given, so the answer is a function of the pattern alone.
pub uninterp spec fn pattern_accepted(pattern: Seq<char>) -> bool;

/// `regex::Regex::new`: it succeeds exactly on the patterns that
/// [`pattern_accepted`] names, and a compiled expression remembers the
/// pattern it was compiled from. Nothing is claimed about which patterns
/// these are.
pub assume_specification[ regex::Regex::new ](re: &str) -> (compiled: Result<
    regex::Regex,
    regex::Error,
>)
    ensures
        compiled is Ok == pattern_accepted(re@),
        compiled matches Ok(expression) ==> regex_source(expression) == re@,
;

/// `regex::Regex::as_str` hands back the pattern text of the expression.
pub assume_specification[ regex::Regex::as_str ](re: &regex::Regex) -> (source: &str)
    ensures
        source@ == regex_source(*re),
;

/// A compiled pattern.
///
/// The only way to a matcher is [`Matcher::compile`], so the expression in it
/// is always one that `regex::Regex::new` built, with the options of that
/// function and no others.
pub struct Matcher {
    expression: regex::Regex,
}

impl Matcher {
    /// The pattern that the matcher was compiled from.
    pub closed spec fn source(&self) -> Seq<char> {
        regex_source(self.expression)
    }

    /// Compiles `pattern`. Gives a matcher for that pattern exactly where the
    /// `regex` crate accepts it, and nothing where it does not.
    pub fn compile(pattern: &str) -> (made: Option<Matcher>)
        ensures
            made is Some == pattern_accepted(pattern@),
            made matches Some(matcher) ==> matcher.source() == pattern@,
    {
        Matcher::from_outcome(regex::Regex::new(pattern))
    }

    /// What [`Matcher::compile`] makes of the outcome of `regex::Regex::new`:
    /// a matcher that holds the expression where there is one, nothing where
    /// the pattern was refused.
    ///
    /// Private, so that no expression reaches a matcher but one that
    /// `regex::Regex::new` has just built.
    fn from_outcome(outcome: Result<regex::Regex, regex::Error>) -> (made: Option<Matcher>)
        ensures
            made is Some <==> outcome is Ok,
            outcome matches Ok(expression) ==> made matches Some(matcher) && matcher.source()
                == regex_source(expression),
    {
        match outcome {
            Ok(expression) => Some(Matcher { expression }),
            Err(_) => None,
        }
    }

    /// The pattern that the matcher was compiled from.
    pub fn pattern(&self) -> (source: &str)
        ensures
            source@ == self.source(),
    {
        self.expression.as_str()
    }

    /// The occurrences of the pattern in `haystack`.
    ///
    /// Runs `regex::Regex::captures_iter` over `haystack` and copies out, for
    /// each occurrence in order, the text of every capture group
    /// (`Captures::iter`, `Match::as_str`). What it finds is a function of the
    /// pattern and the haystack alone, named by [`captures_in`].
    #[verifier::external_body]
    pub(crate) fn occurrences(&self, haystack: &str) -> (found: Vec<Vec<Option<String>>>)
        ensures
            found.deep_view() == captures_in(self.source(), haystack@),
    {
        self.expression.captures_iter(haystack).map(
            |groups| groups.iter().map(|group| group.map(|m| m.as_str().to_string())).collect(),
        ).collect()
    }
}

} // verus!
