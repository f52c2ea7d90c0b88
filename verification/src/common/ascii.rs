//! Byte classes of the textual grammars, as constants and predicates.

use vstd::prelude::*;

verus! {

pub const TAB: u8 = 0x09;
pub const LF: u8 = 0x0a;
pub const FF: u8 = 0x0c;
pub const CR: u8 = 0x0d;
pub const SPACE: u8 = 0x20;
pub const PERCENT: u8 = 0x25;
pub const PLUS: u8 = 0x2b;
pub const COMMA: u8 = 0x2c;
pub const MINUS: u8 = 0x2d;
pub const DOT: u8 = 0x2e;
pub const SLASH: u8 = 0x2f;
pub const DIGIT_0: u8 = 0x30;
pub const DIGIT_1: u8 = 0x31;
pub const DIGIT_2: u8 = 0x32;
pub const DIGIT_4: u8 = 0x34;
pub const DIGIT_6: u8 = 0x36;
pub const DIGIT_9: u8 = 0x39;
pub const COLON: u8 = 0x3a;
pub const SEMICOLON: u8 = 0x3b;
pub const EQUALS: u8 = 0x3d;
pub const QUESTION: u8 = 0x3f;
pub const UPPER_A: u8 = 0x41;
pub const UPPER_F: u8 = 0x46;
pub const UPPER_R: u8 = 0x52;
pub const UPPER_Z: u8 = 0x5a;
pub const UNDERSCORE: u8 = 0x5f;
pub const LOWER_A: u8 = 0x61;
pub const LOWER_C: u8 = 0x63;
pub const LOWER_D: u8 = 0x64;
pub const LOWER_F: u8 = 0x66;
pub const LOWER_H: u8 = 0x68;
pub const LOWER_I: u8 = 0x69;
pub const LOWER_L: u8 = 0x6c;
pub const LOWER_O: u8 = 0x6f;
pub const LOWER_P: u8 = 0x70;
pub const LOWER_R: u8 = 0x72;
pub const LOWER_S: u8 = 0x73;
pub const LOWER_T: u8 = 0x74;
pub const LOWER_V: u8 = 0x76;
pub const LOWER_Z: u8 = 0x7a;
pub const OPEN_BRACE: u8 = 0x7b;
pub const CLOSE_BRACE: u8 = 0x7d;
pub const TILDE: u8 = 0x7e;

/// Space, horizontal tab, line feed, form feed or carriage return.
pub open spec fn is_whitespace(ch: u8) -> bool {
    ch == SPACE || ch == TAB || ch == LF || ch == FF || ch == CR
}

pub open spec fn is_digit(ch: u8) -> bool {
    DIGIT_0 <= ch <= DIGIT_9
}

pub open spec fn is_lower(ch: u8) -> bool {
    LOWER_A <= ch <= LOWER_Z
}

pub open spec fn is_upper(ch: u8) -> bool {
    UPPER_A <= ch <= UPPER_Z
}

pub open spec fn is_hex_digit(ch: u8) -> bool {
    is_digit(ch) || (LOWER_A <= ch <= LOWER_F) || (UPPER_A <= ch <= UPPER_F)
}

/// The distance from an upper-case letter to its lower-case form.
pub const CASE_OFFSET: u8 = 0x20;

/// The lower-case form of an ASCII letter; any other byte is unchanged.
pub open spec fn to_lower(ch: u8) -> u8 {
    if is_upper(ch) {
        (ch + CASE_OFFSET) as u8
    } else {
        ch
    }
}

/// The value of a decimal digit.
pub open spec fn digit_value(ch: u8) -> int
    recommends
        is_digit(ch),
{
    ch - DIGIT_0
}

/// The number that decimal digits write.
pub open spec fn decimal_number(digits: Seq<u8>) -> int
    decreases digits.len(),
{
    if digits.len() == 0 {
        0
    } else {
        decimal_number(digits.drop_last()) * 10 + digit_value(digits.last())
    }
}

/// The value of a hexadecimal digit.
pub open spec fn hex_value(ch: u8) -> int
    recommends
        is_hex_digit(ch),
{
    if is_digit(ch) {
        ch - DIGIT_0
    } else if LOWER_A <= ch <= LOWER_F {
        ch - LOWER_A + 10
    } else {
        ch - UPPER_A + 10
    }
}

pub fn byte_is_whitespace(ch: u8) -> (b: bool)
    ensures
        b == is_whitespace(ch),
{
    ch == SPACE || ch == TAB || ch == LF || ch == FF || ch == CR
}

pub fn byte_is_digit(ch: u8) -> (b: bool)
    ensures
        b == is_digit(ch),
{
    DIGIT_0 <= ch && ch <= DIGIT_9
}

pub fn byte_is_lower(ch: u8) -> (b: bool)
    ensures
        b == is_lower(ch),
{
    LOWER_A <= ch && ch <= LOWER_Z
}

pub fn byte_is_upper(ch: u8) -> (b: bool)
    ensures
        b == is_upper(ch),
{
    UPPER_A <= ch && ch <= UPPER_Z
}

pub fn byte_is_hex_digit(ch: u8) -> (b: bool)
    ensures
        b == is_hex_digit(ch),
{
    (DIGIT_0 <= ch && ch <= DIGIT_9) || (LOWER_A <= ch && ch <= LOWER_F) || (UPPER_A <= ch && ch
        <= UPPER_F)
}

pub fn byte_to_lower(ch: u8) -> (l: u8)
    ensures
        l == to_lower(ch),
{
    if UPPER_A <= ch && ch <= UPPER_Z {
        ch + CASE_OFFSET
    } else {
        ch
    }
}

} // verus!
