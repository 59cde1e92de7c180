//! The calls into outside code. What this module says of them is believed,
//! not proved: each contract here was written from the documentation or
//! the source of the function that is called.

use vstd::prelude::*;
use vstd::string::*;
use crate::distance::edit_distance;
use crate::time::Timestamp;

verus! {

/// The lowercase form of a text.
pub uninterp spec fn lowercase(s: Seq<char>) -> Seq<char>;

/// Calls `str::to_lowercase`.
///
/// Trusted: the returned string is the Unicode lowercase form of `s`, which
/// depends on the characters of `s` alone; the contract gives that form the
/// name [`lowercase`] and says nothing more of it.
#[verifier::external_body]
pub(crate) fn to_lowercase(s: &str) -> (r: String)
    ensures
        r@ == lowercase(s@),
{
    s.to_lowercase()
}

/// Whether a pattern, read as a regular expression, matches somewhere in a
/// text; `None` where the pattern cannot be compiled.
pub uninterp spec fn regex_match(pattern: Seq<char>, text: Seq<char>) -> Option<bool>;

/// Whether a character is alphabetic.
pub uninterp spec fn is_alphabetic(c: char) -> bool;

/// Whether a character is white space.
pub uninterp spec fn is_whitespace(c: char) -> bool;

/// Calls `regex::Regex::new` on the pattern and, where that gives a
/// regular expression, `regex::Regex::is_match` of it on the text.
///
/// Trusted: whether a pattern compiles, and whether it then matches, depends
/// on the two texts alone; the contract gives the answer the name
/// [`regex_match`] and says nothing more of it.
#[verifier::external_body]
pub(crate) fn regex_is_match(pattern: &str, text: &str) -> (r: Option<bool>)
    ensures
        r == regex_match(pattern@, text@),
{
    match regex::Regex::new(pattern) {
        Ok(re) => Some(re.is_match(text)),
        Err(_) => None,
    }
}

/// Calls `char::is_alphabetic`.
///
/// Trusted: the answer is the Unicode property `Alphabetic` of the
/// character, which the contract names [`is_alphabetic`].
#[verifier::external_body]
pub(crate) fn char_is_alphabetic(c: char) -> (r: bool)
    ensures
        r == is_alphabetic(c),
{
    c.is_alphabetic()
}

/// Calls `char::is_whitespace`.
///
/// Trusted: the answer is the Unicode property `White_Space` of the
/// character, which the contract names [`is_whitespace`].
#[verifier::external_body]
pub(crate) fn char_is_whitespace(c: char) -> (r: bool)
    ensures
        r == is_whitespace(c),
{
    c.is_whitespace()
}

/// The length of the longest text that is handed to the outside routine
/// for the edit distance.
pub const TABLE_SIDE: usize = 1024;

/// Calls `fuzzy_search::distance::levenshtein`.
///
/// Trusted: on two texts of ASCII characters the call returns their
/// Levenshtein distance. The outside routine takes the number of bytes for
/// the number of characters and indexes past the end on other text, and it
/// fills a table with a cell for each pair of characters; so text that is
/// not ASCII, and long text, is kept from it.
#[verifier::external_body]
pub(crate) fn levenshtein_ascii(a: &str, b: &str) -> (r: usize)
    requires
        is_ascii(a),
        is_ascii(b),
        a@.len() <= TABLE_SIDE,
        b@.len() <= TABLE_SIDE,
    ensures
        r == edit_distance(a@, b@),
{
    fuzzy_search::distance::levenshtein(a, b)
}

/// Calls `chrono::Utc::now` and reads the seconds and nanoseconds of what it
/// returns with `DateTime::timestamp` and `DateTime::timestamp_subsec_nanos`.
///
/// Trusted, and nothing is claimed of the result: it depends on the clock.
/// `Utc::now` does not return where the clock of the machine stands before
/// 1970.
#[verifier::external_body]
pub(crate) fn now() -> (r: Timestamp) {
    let t = chrono::Utc::now();
    Timestamp { secs: t.timestamp(), nanos: t.timestamp_subsec_nanos() }
}

} // verus!
