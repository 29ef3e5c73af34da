//! Comparing string slices.

use vstd::prelude::*;

verus! {

/// `str::eq`, the equality of two string slices: it holds exactly when both
/// are the same sequence of characters.
pub assume_specification[ <str as PartialEq>::eq ](a: &str, b: &str) -> (r: bool)
    ensures
        r == (a@ == b@),
;

} // verus!
