//! What this crate takes on trust of the standard library, where vstd says nothing.

use vstd::prelude::*;

verus! {

/// Whether `c` has the Unicode `White_Space` property, as the standard library reports it.
pub uninterp spec fn white_space_property(c: char) -> bool;

/// `char::is_whitespace` reports the Unicode `White_Space` property of a character. Among
/// the ASCII characters the space and the five from U+0009 to U+000D have it, and no other.
pub assume_specification[ char::is_whitespace ](c: char) -> (space: bool)
    ensures
        space == white_space_property(c),
        (c as u32) < 0x80 ==> space == (c == ' ' || 0x09 <= c as u32 <= 0x0d),
;

/// `String::push` appends the character to the end of the string.
pub assume_specification[ String::push ](text: &mut String, c: char)
    ensures
        final(text)@ == old(text)@.push(c),
;

/// `str`'s `==` holds of two strings exactly when they are the same sequence of characters.
pub assume_specification[ <str as PartialEq>::eq ](a: &str, b: &str) -> (same: bool)
    ensures
        same == (a@ == b@),
;

} // verus!
