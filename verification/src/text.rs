//! What this crate assumes of `String`.

use vstd::prelude::*;

verus! {

/// `String::push` appends the character to the end of the string and changes
/// nothing else. This is taken from the standard library's documentation; it is
/// not proved here.
pub assume_specification[ String::push ](text: &mut String, c: char)
    ensures
        final(text)@ == old(text)@.push(c),
;

} // verus!
