//! Character classification and string building helpers.
//!
//! The Unicode character classes used by the parser and by indentation
//! handling are provided by the standard library; their tables are far too
//! large to restate, so their results are given names that the rest of the
//! library reasons with.

use vstd::prelude::*;

verus! {

/// Whether a character has the Unicode `Alphabetic` property, as decided by
/// `char::is_alphabetic`.
pub uninterp spec fn alphabetic_char(c: char) -> bool;

/// Whether a character is alphanumeric, as decided by
/// `char::is_alphanumeric`.
pub uninterp spec fn alphanumeric_char(c: char) -> bool;

/// Whether a character is whitespace, as decided by `char::is_whitespace`.
pub uninterp spec fn whitespace_char(c: char) -> bool;

/// Relies on `char::is_alphabetic`: the result depends on the character
/// alone.
#[verifier::external_body]
pub(crate) fn char_is_alphabetic(c: char) -> (r: bool)
    ensures
        r == alphabetic_char(c),
{
    c.is_alphabetic()
}

/// Relies on `char::is_alphanumeric`: the result depends on the character
/// alone.
#[verifier::external_body]
pub(crate) fn char_is_alphanumeric(c: char) -> (r: bool)
    ensures
        r == alphanumeric_char(c),
{
    c.is_alphanumeric()
}

/// Relies on `char::is_whitespace`: the result depends on the character
/// alone.
#[verifier::external_body]
pub(crate) fn char_is_whitespace(c: char) -> (r: bool)
    ensures
        r == whitespace_char(c),
{
    c.is_whitespace()
}

/// Relies on `String::push`: appends the given character to the end of the
/// string.
#[verifier::external_body]
pub(crate) fn push_char(s: &mut String, c: char)
    ensures
        final(s)@ == old(s)@.push(c),
{
    s.push(c);
}

/// Whether a character is an ASCII hexadecimal digit.
pub open spec fn hexdigit_char(c: char) -> bool {
    ('0' as u32 <= c as u32 && c as u32 <= '9' as u32) || ('a' as u32 <= c as u32 && c as u32
        <= 'f' as u32) || ('A' as u32 <= c as u32 && c as u32 <= 'F' as u32)
}

/// The numeric value of an ASCII hexadecimal digit.
pub open spec fn hexdigit_value(c: char) -> int {
    if '0' as u32 <= c as u32 && c as u32 <= '9' as u32 {
        c as u32 - '0' as u32
    } else if 'a' as u32 <= c as u32 && c as u32 <= 'f' as u32 {
        c as u32 - 'a' as u32 + 10
    } else {
        c as u32 - 'A' as u32 + 10
    }
}

/// The character whose code is the byte written with the two hexadecimal
/// digits `first` and `second`.
pub open spec fn hex_byte_char(first: char, second: char) -> char {
    ((hexdigit_value(first) * 16 + hexdigit_value(second)) as u8) as char
}

/// Whether `c` is an ASCII hexadecimal digit.
pub fn is_hexdigit(c: char) -> (r: bool)
    ensures
        r == hexdigit_char(c),
{
    let u = c as u32;
    ('0' as u32 <= u && u <= '9' as u32) || ('a' as u32 <= u && u <= 'f' as u32) || ('A' as u32
        <= u && u <= 'F' as u32)
}

/// Converts two hexadecimal digit characters to the character with the
/// combined byte value.
pub fn byte_from_hex_chars(first_hex: char, second_hex: char) -> (r: char)
    requires
        hexdigit_char(first_hex),
        hexdigit_char(second_hex),
    ensures
        r == hex_byte_char(first_hex, second_hex),
{
    let hi = hexdigit_value_exec(first_hex);
    let lo = hexdigit_value_exec(second_hex);
    let byte: u8 = (hi * 16 + lo) as u8;
    byte as char
}

/// The numeric value of an ASCII hexadecimal digit.
fn hexdigit_value_exec(c: char) -> (r: u32)
    requires
        hexdigit_char(c),
    ensures
        r as int == hexdigit_value(c),
        r < 16,
{
    let u = c as u32;
    if '0' as u32 <= u && u <= '9' as u32 {
        u - '0' as u32
    } else if 'a' as u32 <= u && u <= 'f' as u32 {
        u - 'a' as u32 + 10
    } else {
        u - 'A' as u32 + 10
    }
}

} // verus!
