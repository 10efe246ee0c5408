//! What the standard library's string functions do, where the proofs of this
//! crate need it.

use vstd::prelude::*;

verus! {

/// `String::push` appends one character to the end of the string and leaves
/// the rest of it as it was.
pub assume_specification[ String::push ](s: &mut String, c: char)
    ensures
        final(s)@ == old(s)@.push(c),
;

/// The character that stands for the decimal digit `d`.
pub fn digit_char(d: u8) -> (c: char)
    requires
        d <= 9,
    ensures
        c == ('0' as int + d) as char,
{
    (48u8 + d) as char
}

} // verus!
