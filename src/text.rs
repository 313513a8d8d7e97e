//! Searching error texts for the markers that decide what happens next.
use vstd::prelude::*;

verus! {

/// Whether `pat` occurs in `text` as a contiguous run of characters.
pub open spec fn contains_text(text: Seq<char>, pat: Seq<char>) -> bool {
    exists|i: int| 0 <= i <= text.len() - pat.len() && #[trigger] text.subrange(i, i + pat.len()) == pat
}

/// Relies on str::contains: whether `pat` occurs in `text`.
#[verifier::external_body]
pub(crate) fn text_contains(text: &str, pat: &str) -> (r: bool)
    ensures
        r == contains_text(text@, pat@),
{
    text.contains(pat)
}

} // verus!
