//! Byte classes: the character sets that decide where a term begins, ends, or is part of a
//! reference.

use vstd::prelude::*;

verus! {

/// An ASCII letter.
pub open spec fn alphabetic(byte: u8) -> bool {
    'a' as u8 <= byte <= 'z' as u8 || 'A' as u8 <= byte <= 'Z' as u8
}

/// An ASCII letter or digit.
pub open spec fn alphanumeric(byte: u8) -> bool {
    alphabetic(byte) || '0' as u8 <= byte <= '9' as u8
}

/// ASCII whitespace: space, tab, line feed, form feed, or carriage return.
pub open spec fn whitespace(byte: u8) -> bool {
    byte == ' ' as u8 || byte == '\t' as u8 || byte == '\n' as u8 || byte == 0x0c || byte == '\r' as u8
}

/// A byte that can be part of a word.
pub open spec fn word_byte(byte: u8) -> bool {
    alphanumeric(byte) || byte == '_' as u8
}

/// A byte that turns a preceding dot into part of a dotted name.
pub open spec fn reference_suffix_byte(byte: u8) -> bool {
    alphanumeric(byte) || byte == '_' as u8 || byte == '-' as u8
}

/// A byte of a URI scheme, after the first.
pub open spec fn uri_scheme_byte(byte: u8) -> bool {
    alphanumeric(byte) || byte == '+' as u8 || byte == '-' as u8 || byte == '.' as u8
}

/// A byte that can directly follow the `:`, `?` or `#` of a URI.
pub open spec fn uri_payload_start_byte(byte: u8) -> bool {
    reference_suffix_byte(byte) || byte == '/' as u8 || byte == '.' as u8 || byte == '~' as u8 || byte == '%' as u8
        || byte == ':' as u8 || byte == '@' as u8 || byte == '?' as u8 || byte == '#' as u8 || byte == '[' as u8
        || byte == '+' as u8
}

/// Whether `byte` is an ASCII letter.
pub fn is_ascii_letter(byte: u8) -> (result: bool)
    ensures
        result == alphabetic(byte),
{
    ('a' as u8 <= byte && byte <= 'z' as u8) || ('A' as u8 <= byte && byte <= 'Z' as u8)
}

/// Whether `byte` is an ASCII letter or digit.
pub fn is_ascii_letter_or_digit(byte: u8) -> (result: bool)
    ensures
        result == alphanumeric(byte),
{
    is_ascii_letter(byte) || ('0' as u8 <= byte && byte <= '9' as u8)
}

/// Whether `byte` is ASCII whitespace.
pub fn is_whitespace(byte: u8) -> (result: bool)
    ensures
        result == whitespace(byte),
{
    byte == ' ' as u8 || byte == '\t' as u8 || byte == '\n' as u8 || byte == 0x0c || byte == '\r' as u8
}

/// Whether `byte` can be part of a word: a term is only retargeted where it is not joined to one.
pub fn is_word_byte(byte: u8) -> (result: bool)
    ensures
        result == word_byte(byte),
{
    is_ascii_letter_or_digit(byte) || byte == '_' as u8
}

/// Whether `byte`, right after a dot, makes the dot part of a dotted name.
pub fn is_reference_suffix_byte(byte: u8) -> (result: bool)
    ensures
        result == reference_suffix_byte(byte),
{
    is_ascii_letter_or_digit(byte) || byte == '_' as u8 || byte == '-' as u8
}

/// Whether `byte` can occur in a URI scheme, after its first byte.
pub fn is_uri_scheme_byte(byte: u8) -> (result: bool)
    ensures
        result == uri_scheme_byte(byte),
{
    is_ascii_letter_or_digit(byte) || byte == '+' as u8 || byte == '-' as u8 || byte == '.' as u8
}

/// Whether `byte` can directly follow the `:`, `?` or `#` of a URI.
pub fn is_uri_payload_start_byte(byte: u8) -> (result: bool)
    ensures
        result == uri_payload_start_byte(byte),
{
    is_reference_suffix_byte(byte) || byte == '/' as u8 || byte == '.' as u8 || byte == '~' as u8 || byte == '%' as u8
        || byte == ':' as u8 || byte == '@' as u8 || byte == '?' as u8 || byte == '#' as u8 || byte == '[' as u8
        || byte == '+' as u8
}

} // verus!
