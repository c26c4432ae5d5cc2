//! Substring containment: the matching granularity of both the lexicons and
//! the keyword registry. A term matches a text whenever it occurs anywhere
//! inside it, with no word-boundary check and no normalization.

use vstd::prelude::*;

verus! {

/// The pattern `pat` occurs in `text` starting at position `i`.
pub open spec fn occurs_at(text: Seq<char>, pat: Seq<char>, i: int) -> bool {
    0 <= i && i + pat.len() <= text.len() && text.subrange(i, i + pat.len()) == pat
}

/// The pattern `pat` occurs somewhere in `text` as a contiguous substring.
pub open spec fn has_substring(text: Seq<char>, pat: Seq<char>) -> bool {
    exists|i: int| occurs_at(text, pat, i)
}

/// Relies on `str::contains` with a `&str` pattern: it returns true exactly
/// when the pattern occurs as a contiguous substring of the text.
#[verifier::external_body]
pub(crate) fn contains_term(text: &str, pat: &str) -> (r: bool)
    ensures
        r == has_substring(text@, pat@),
{
    text.contains(pat)
}

} // verus!
