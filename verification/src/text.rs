//! Comparisons of string slices, over their views as character sequences.

use vstd::prelude::*;

verus! {

/// `needle` occurs in `hay` as a contiguous run of characters.
pub open spec fn is_substring(needle: Seq<char>, hay: Seq<char>) -> bool {
    exists|i: int|
        0 <= i && i + needle.len() <= hay.len() && #[trigger] hay.subrange(
            i,
            i + needle.len(),
        ) == needle
}

/// One of the two names occurs inside the other.
pub open spec fn names_overlap(a: Seq<char>, b: Seq<char>) -> bool {
    is_substring(a, b) || is_substring(b, a)
}

/// Whether both slices spell the same characters.
pub(crate) fn same_text(a: &str, b: &str) -> (r: bool)
    ensures
        r == (a@ == b@),
{
    a.to_owned() == b.to_owned()
}

/// Trusted: `str::contains` with a string pattern, which holds exactly when
/// the pattern matches a sub-slice of `hay`.
#[verifier::external_body]
pub(crate) fn contains_text(hay: &str, needle: &str) -> (r: bool)
    ensures
        r == is_substring(needle@, hay@),
{
    hay.contains(needle)
}

/// Whether one of the two names occurs inside the other.
pub fn overlapping(a: &str, b: &str) -> (r: bool)
    ensures
        r == names_overlap(a@, b@),
{
    contains_text(b, a) || contains_text(a, b)
}

} // verus!
