//! Character classification and case folding for the tokenizer.
//!
//! The Unicode character classes are properties of a character alone, so each
//! class gets a name (an uninterpreted spec function) and a trusted wrapper
//! around the corresponding `char` method.

use vstd::prelude::*;

verus! {

/// Whether `c` has the Unicode `White_Space` property.
pub uninterp spec fn whitespace_char(c: char) -> bool;

/// Whether `c` is numeric (Unicode `Number` category).
pub uninterp spec fn numeric_char(c: char) -> bool;

/// Whether `c` is alphabetic (Unicode `Alphabetic` property).
pub uninterp spec fn alphabetic_char(c: char) -> bool;

/// A character is alphanumeric exactly when it is alphabetic or numeric;
/// this is how `char::is_alphanumeric` is documented.
pub open spec fn alphanumeric_char(c: char) -> bool {
    alphabetic_char(c) || numeric_char(c)
}

/// Relies on char::is_whitespace: the `White_Space` property of the character alone.
#[verifier::external_body]
pub fn is_whitespace_char(c: char) -> (r: bool)
    ensures
        r == whitespace_char(c),
{
    c.is_whitespace()
}

/// Relies on char::is_numeric: the `Number` category of the character alone.
#[verifier::external_body]
pub fn is_numeric_char(c: char) -> (r: bool)
    ensures
        r == numeric_char(c),
{
    c.is_numeric()
}

/// Relies on char::is_alphabetic: the `Alphabetic` property of the character alone.
#[verifier::external_body]
pub fn is_alphabetic_char(c: char) -> (r: bool)
    ensures
        r == alphabetic_char(c),
{
    c.is_alphabetic()
}

/// Relies on char::is_alphanumeric, documented as `is_alphabetic() || is_numeric()`.
#[verifier::external_body]
pub fn is_alphanumeric_char(c: char) -> (r: bool)
    ensures
        r == alphanumeric_char(c),
{
    c.is_alphanumeric()
}

/// Whether `c` is an ASCII character.
pub open spec fn ascii_char(c: char) -> bool {
    (c as u32) < 128
}

/// Whether `c` is an ASCII lowercase letter.
pub open spec fn ascii_lower_char(c: char) -> bool {
    97 <= (c as u32) && (c as u32) <= 122
}

/// Case folding as the tokenizer applies it: ASCII lowercase letters map to
/// their uppercase counterparts, every other character — including every
/// non-ASCII letter — is unchanged. This is the fold of
/// `char::to_ascii_uppercase`: one character to one character, which keeps
/// every term aligned with its source span.
pub open spec fn spec_ascii_upper(c: char) -> char {
    if ascii_lower_char(c) {
        (((c as u32) - 32) as u32) as char
    } else {
        c
    }
}

/// Uppercase an ASCII lowercase letter; leave any other character unchanged.
pub fn ascii_upper(c: char) -> (r: char)
    ensures
        r == spec_ascii_upper(c),
{
    let u = c as u32;
    if 97 <= u && u <= 122 {
        ((u - 32) as u8) as char
    } else {
        c
    }
}

/// Relies on String::push: appends exactly one character.
#[verifier::external_body]
pub fn string_push(s: &mut String, c: char)
    ensures
        final(s)@ == old(s)@.push(c),
{
    s.push(c)
}

/// Relies on str's PartialEq: equality of the two character sequences.
#[verifier::external_body]
pub fn str_eq(a: &str, b: &str) -> (r: bool)
    ensures
        r == (a@ == b@),
{
    a == b
}

} // verus!
