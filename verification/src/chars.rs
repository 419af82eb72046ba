//! Character classes of the todo.txt grammar.
//!
//! A *word* character is an ASCII letter, digit or underscore; whitespace is
//! the ASCII whitespace set.  All structural tokens of the format are built
//! from these classes, so a line may carry arbitrary other characters in its
//! title without disturbing the grammar.
//!
//! The restriction to ASCII is deliberate: the grammar's classes are spelled
//! out here in full so that every scan over them is a checked definition,
//! where a Unicode-wide word class would rest on tables nothing in this
//! crate could hold to account.  A character outside ASCII is never
//! structural: it cannot open or extend a token, and flows into the title
//! unchanged.  A project or context word, a tag key or a priority is thus
//! ASCII; `+héllo` keeps only `h` as its project, where a Unicode-aware
//! matcher would keep `héllo`.

use vstd::prelude::*;

verus! {

/// A word character: ASCII letter, digit or underscore.
pub open spec fn is_word_char(c: char) -> bool {
    ('a' <= c && c <= 'z') || ('A' <= c && c <= 'Z') || ('0' <= c && c <= '9') || c == '_'
}

/// An ASCII decimal digit.
pub open spec fn is_digit_char(c: char) -> bool {
    '0' <= c && c <= '9'
}

/// ASCII whitespace.
pub open spec fn is_space_char(c: char) -> bool {
    c == ' ' || c == '\t' || c == '\n' || c == '\r' || c == '\u{b}' || c == '\u{c}'
}

/// Executable test for [`is_word_char`].
pub fn word_char(c: char) -> (r: bool)
    ensures
        r == is_word_char(c),
{
    ('a' <= c && c <= 'z') || ('A' <= c && c <= 'Z') || ('0' <= c && c <= '9') || c == '_'
}

/// Executable test for [`is_digit_char`].
pub fn digit_char(c: char) -> (r: bool)
    ensures
        r == is_digit_char(c),
{
    '0' <= c && c <= '9'
}

/// Executable test for [`is_space_char`].
pub fn space_char(c: char) -> (r: bool)
    ensures
        r == is_space_char(c),
{
    c == ' ' || c == '\t' || c == '\n' || c == '\r' || c == '\u{b}' || c == '\u{c}'
}

/// The numeric value of a digit character.
pub open spec fn digit_val(c: char) -> int {
    c as int - '0' as int
}

} // verus!
