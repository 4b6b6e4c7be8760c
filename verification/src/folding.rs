//! Case folding, which is left to the standard library.

use vstd::prelude::*;

verus! {

/// The lowercase form that the standard library gives a text: the result of
/// `str::to_lowercase`, which follows the Unicode case mappings. It depends on
/// the text alone. Nothing else is known of it here.
pub uninterp spec fn lowercase(text: Seq<char>) -> Seq<char>;

/// Calls `str::to_lowercase`. The contract only gives the result its name,
/// `lowercase`; that the call computes the Unicode lowercase form is taken
/// from the standard library and not proved.
#[verifier::external_body]
pub(crate) fn to_lowercase(text: &str) -> (folded: String)
    ensures
        folded@ == lowercase(text@),
{
    text.to_lowercase()
}

} // verus!
