//! Writing single characters to a `String`.
//!
//! Nothing here is proved: the function stands for `String::push` of the
//! standard library.

use vstd::prelude::*;

verus! {

/// `String::push`: the character is added at the end of the text.
#[verifier::external_body]
pub(crate) fn push_char(out: &mut String, character: char)
    ensures
        final(out)@ == old(out)@.push(character),
{
    out.push(character);
}

} // verus!
