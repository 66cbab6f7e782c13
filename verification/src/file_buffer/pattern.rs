//! Compiled search patterns and the matches they find in a run of bytes.

use crate::errors::ViewError;
use vstd::prelude::*;

verus! {

/// The compiled expression of the `regex` crate for searching bytes.
#[verifier::external_type_specification]
#[verifier::external_body]
pub struct ExRegex(regex::bytes::Regex);

/// The error of the compiler of the `regex` crate.
#[verifier::external_type_specification]
#[verifier::external_body]
pub struct ExRegexError(regex::Error);

/// A regular expression ready for searching bytes. It views as the text it
/// was compiled from.
pub struct SearchPattern {
    source: String,
    compiled: regex::bytes::Regex,
}

/// Whether `regex::bytes::Regex::new` accepts the pattern.
pub uninterp spec fn regex_compiles(pattern: Seq<char>) -> bool;

/// The start and end of the match that `regex::bytes::Regex::find` reports
/// for the pattern in the haystack, if it reports one.
pub uninterp spec fn regex_first_match(pattern: Seq<char>, haystack: Seq<u8>) -> Option<
    (int, int),
>;

/// The starts and ends of the matches that `regex::bytes::Regex::find_iter`
/// yields for the pattern in the haystack, in the order it yields them.
pub uninterp spec fn regex_matches(pattern: Seq<char>, haystack: Seq<u8>) -> Seq<(int, int)>;

/// Whether `regex::Regex::new` accepts the pattern as one for text.
pub uninterp spec fn text_regex_compiles(pattern: Seq<char>) -> bool;

/// `regex::Regex::new`: compiles the pattern as one for text, with the
/// crate's default settings, so whether it succeeds depends on the pattern
/// alone.
#[verifier::external_body]
pub(crate) fn compiles_for_text(pattern: &str) -> (accepted: bool)
    ensures
        accepted == text_regex_compiles(pattern@),
{
    regex::Regex::new(pattern).is_ok()
}

/// `regex::bytes::Regex::new`: compiles the pattern with the crate's default
/// settings, so whether it succeeds depends on the pattern alone. The
/// compiled expression is kept together with its text.
#[verifier::external_body]
fn compile(pattern: &str) -> (made: Result<SearchPattern, regex::Error>)
    ensures
        made is Ok <==> regex_compiles(pattern@),
        made matches Ok(p) ==> p@ == pattern@,
{
    match regex::bytes::Regex::new(pattern) {
        Ok(compiled) => Ok(SearchPattern { source: pattern.to_owned(), compiled }),
        Err(e) => Err(e),
    }
}

/// `regex::bytes::Regex::find`: the leftmost match in the haystack. A match
/// lies inside the haystack and its start is never behind its end.
#[verifier::external_body]
pub(crate) fn find_first(pattern: &SearchPattern, haystack: &[u8]) -> (found: Option<
    (usize, usize),
>)
    ensures
        regex_first_match(pattern@, haystack@) == match found {
            Some((start, end)) => Some((start as int, end as int)),
            None => None,
        },
        found matches Some((start, end)) ==> start <= end <= haystack@.len(),
{
    match pattern.compiled.find(haystack) {
        Some(m) => Some((m.start(), m.end())),
        None => None,
    }
}

/// `regex::bytes::Regex::find_iter`: all matches in the haystack that do not
/// overlap, left to right. Each lies inside the haystack and its start is
/// never behind its end.
#[verifier::external_body]
fn find_all(pattern: &SearchPattern, haystack: &[u8]) -> (found: Vec<(usize, usize)>)
    ensures
        found@.len() == regex_matches(pattern@, haystack@).len(),
        forall|i: int|
            0 <= i < found@.len() ==> {
                &&& (#[trigger] found@[i]).0 <= found@[i].1 <= haystack@.len()
                &&& regex_matches(pattern@, haystack@)[i] == (
                    found@[i].0 as int,
                    found@[i].1 as int,
                )
            },
{
    pattern.compiled.find_iter(haystack).map(|m| (m.start(), m.end())).collect()
}

impl View for SearchPattern {
    type V = Seq<char>;

    closed spec fn view(&self) -> Seq<char> {
        self.source@
    }
}

/// The last of the matches that `find_iter` yields, if there is one.
pub open spec fn regex_last_match(pattern: Seq<char>, haystack: Seq<u8>) -> Option<(int, int)> {
    let all = regex_matches(pattern, haystack);
    if all.len() == 0 {
        None
    } else {
        Some(all.last())
    }
}

impl SearchPattern {
    /// Compiles `pattern`. Fails with `InvalidRegex` exactly when the regex
    /// compiler refuses the pattern.
    pub fn new(pattern: &str) -> (made: Result<SearchPattern, ViewError>)
        ensures
            made is Ok <==> regex_compiles(pattern@),
            made matches Ok(p) ==> p@ == pattern@,
            made matches Err(e) ==> e == ViewError::InvalidRegex,
    {
        match compile(pattern) {
            Ok(p) => Ok(p),
            Err(_) => Err(ViewError::InvalidRegex),
        }
    }

    /// The text of the pattern.
    pub fn as_str(&self) -> (text: &str)
        ensures
            text@ == self@,
    {
        self.source.as_str()
    }

    /// The last match in `haystack`, as offsets into it.
    pub fn last_match(&self, haystack: &[u8]) -> (found: Option<(usize, usize)>)
        ensures
            regex_last_match(self@, haystack@) == match found {
                Some((start, end)) => Some((start as int, end as int)),
                None => None,
            },
            found matches Some((start, end)) ==> start <= end <= haystack@.len(),
    {
        let all = find_all(self, haystack);
        if all.len() == 0 {
            None
        } else {
            Some(all[all.len() - 1])
        }
    }
}

} // verus!
