//! File name filters: regular expressions over bytes, through the `regex`
//! crate.
use vstd::prelude::*;

verus! {

/// `regex::bytes::Regex`, a compiled regular expression; opaque here.
#[verifier::external_type_specification]
#[verifier::external_body]
pub struct ExRegex(regex::bytes::Regex);

/// `regex::Error`, why a pattern was refused; carried, never looked into.
#[verifier::external_type_specification]
#[verifier::external_body]
pub struct ExRegexError(regex::Error);

/// Whether `regex::bytes::Regex::new` accepts `pattern`.
pub uninterp spec fn regex_compiles(pattern: Seq<char>) -> bool;

/// The successive non-overlapping matches that
/// `regex::bytes::Regex::find_iter` yields in `haystack`, for the regex
/// compiled from `pattern`, each as the bytes it spans.
pub uninterp spec fn regex_found(pattern: Seq<char>, haystack: Seq<u8>) -> Seq<Seq<u8>>;

/// Compiles with `regex::bytes::Regex::new`. The contract claims that
/// whether it succeeds is a function of the pattern alone, named
/// `regex_compiles`.
#[verifier::external_body]
fn compile_regex(pattern: &str) -> (r: Result<regex::bytes::Regex, regex::Error>)
    ensures
        r is Ok <==> regex_compiles(pattern@),
{
    regex::bytes::Regex::new(pattern)
}

/// Why a filter was refused.
#[derive(Debug, PartialEq, Eq, Structural)]
pub enum FilterError {
    /// The pattern is not a regular expression the `regex` crate accepts.
    InvalidPattern,
}

/// A compiled file name filter, with the pattern it was compiled from.
pub struct SearchFilter {
    pattern: String,
    regex: regex::bytes::Regex,
}

impl View for SearchFilter {
    type V = Seq<char>;

    /// The pattern.
    closed spec fn view(&self) -> Seq<char> {
        self.pattern@
    }
}

/// Collects the matches of the filter in `haystack` with
/// `regex::bytes::Regex::find_iter`, each copied out of the haystack by
/// `Match::as_bytes`. The contract claims that they are the matches named
/// `regex_found` for the filter's pattern: it holds because the only way to
/// build a `SearchFilter` is `SearchFilter::new`, which compiles the regex
/// from that very pattern.
#[verifier::external_body]
fn find_matches(filter: &SearchFilter, haystack: &[u8]) -> (r: Vec<Vec<u8>>)
    ensures
        r@.map_values(|m: Vec<u8>| m@) == regex_found(filter@, haystack@),
{
    filter.regex.find_iter(haystack).map(|m| m.as_bytes().to_vec()).collect()
}

impl SearchFilter {
    /// Compile a filter from a regular expression.
    pub fn new(pattern: &str) -> (r: Result<SearchFilter, FilterError>)
        ensures
            match r {
                Ok(f) => regex_compiles(pattern@) && f@ == pattern@,
                Err(e) => !regex_compiles(pattern@) && e == FilterError::InvalidPattern,
            },
    {
        match compile_regex(pattern) {
            Ok(regex) => Ok(SearchFilter { pattern: String::from_str(pattern), regex }),
            Err(_) => Err(FilterError::InvalidPattern),
        }
    }

    /// The pattern the filter was compiled from.
    pub fn pattern(&self) -> (r: &str)
        ensures
            r@ == self@,
    {
        self.pattern.as_str()
    }

    /// The matches of the filter in `haystack`, in order.
    pub fn matches(&self, haystack: &[u8]) -> (r: Vec<Vec<u8>>)
        ensures
            r@.map_values(|m: Vec<u8>| m@) == regex_found(self@, haystack@),
    {
        find_matches(self, haystack)
    }
}

} // verus!
