//! Case folding. Tag membership and text search are case-insensitive; the
//! folding itself is Unicode-aware and comes from the standard library, so
//! its result is only named here, never redefined.

use vstd::prelude::*;

verus! {

/// The lower-case form of a character sequence, as `str::to_lowercase`
/// computes it. The result depends on the characters alone.
pub uninterp spec fn lower_of(s: Seq<char>) -> Seq<char>;

/// Relies on `str::to_lowercase`: returns the lower-case equivalent of the
/// string, determined by the Unicode lowercase mapping of its characters;
/// an empty string stays empty.
#[verifier::external_body]
pub(crate) fn to_lower(s: &str) -> (r: String)
    ensures
        r@ == lower_of(s@),
        s@.len() == 0 ==> r@.len() == 0,
{
    s.to_lowercase()
}

} // verus!
