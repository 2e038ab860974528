//! Character classes of the shell language.

use vstd::prelude::*;
use crate::std_specs::white_space_property;

verus! {

/// Whitespace: among the ASCII characters the space and the five from U+0009 to U+000D,
/// beyond them every character with the `White_Space` property.
pub open spec fn whitespace(c: char) -> bool {
    if (c as u32) < 0x80 {
        c == ' ' || 0x09 <= c as u32 <= 0x0d
    } else {
        white_space_property(c)
    }
}

/// A newline or a semicolon: the two are interchangeable statement delimiters.
pub open spec fn terminator(c: char) -> bool {
    c == '\n' || c == ';'
}

/// A character that can stand in a word.
pub open spec fn word_char(c: char) -> bool {
    !whitespace(c) && !terminator(c)
}

/// A character that the lexer passes over between two tokens: whitespace or a line
/// terminator, and no brace.
pub open spec fn separator(c: char) -> bool {
    c != '{' && c != '}' && !word_char(c)
}

/// Whether `c` ends a statement.
pub fn is_line_terminator(c: char) -> (yes: bool)
    ensures
        yes == terminator(c),
{
    c == '\n' || c == ';'
}

} // verus!
