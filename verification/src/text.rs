//! Building owned strings out of character sequences.

use vstd::prelude::*;

verus! {

/// Relies on std's `FromIterator` impl for `String`: collecting characters
/// yields a string whose characters are exactly those of the input, in
/// order.
#[verifier::external_body]
pub(crate) fn string_from_chars(cs: &Vec<char>) -> (r: String)
    ensures
        r@ == cs@,
{
    cs.iter().collect()
}

} // verus!
