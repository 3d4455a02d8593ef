//! The ASCII bytes that the format gives a meaning to.

use vstd::prelude::*;

verus! {

/// `0`, the first digit.
pub const DIGIT_ZERO: u8 = 48;

/// `9`, the last digit.
pub const DIGIT_NINE: u8 = 57;

/// `5`, the digit at which rounding turns.
pub const DIGIT_FIVE: u8 = 53;

/// `:`, which ends the length field.
pub const COLON: u8 = 58;

/// `-`, the sign of a negative number.
pub const MINUS: u8 = 45;

/// `+`, the sign of a positive exponent.
pub const PLUS: u8 = 43;

/// `.`, the decimal point.
pub const POINT: u8 = 46;

/// `e`, which starts an exponent.
pub const LOWER_E: u8 = 101;

/// `E`, which starts an exponent too.
pub const UPPER_E: u8 = 69;

/// `,`, the tag of a byte string.
pub const TAG_STR: u8 = 44;

/// `#`, the tag of an integer.
pub const TAG_INT: u8 = 35;

/// `^`, the tag of a floating-point number.
pub const TAG_FLOAT: u8 = 94;

/// `!`, the tag of a boolean.
pub const TAG_BOOL: u8 = 33;

/// `~`, the tag of null.
pub const TAG_NULL: u8 = 126;

/// `}`, the tag of a map.
pub const TAG_DICT: u8 = 125;

/// `]`, the tag of a list.
pub const TAG_LIST: u8 = 93;

} // verus!
