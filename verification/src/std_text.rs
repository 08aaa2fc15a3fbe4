//! Contracts for the two standard-library functions that the library calls
//! and that `vstd` leaves unspecified. Verus takes them on trust.

use vstd::prelude::*;

verus! {

/// `String::push` appends the given character to the end of the string and
/// changes nothing else.
pub assume_specification[ String::push ](s: &mut String, ch: char)
    ensures
        final(s)@ == old(s)@.push(ch),
;

/// `char::from_u32` returns the character with the given scalar value, and
/// `None` exactly for the values that are no Unicode scalar value: the
/// surrogates `0xD800..=0xDFFF` and everything above `0x10FFFF`.
pub assume_specification[ char::from_u32 ](i: u32) -> (r: Option<char>)
    ensures
        r == (if i <= 0xD7FF || 0xE000 <= i <= 0x10FFFF {
            Some(i as char)
        } else {
            None::<char>
        }),
;

} // verus!
