//! The ways in which bytes can fail to be a tagged netstring.

use vstd::prelude::*;
use vstd::string::StringExecFns;

verus! {

/// Why a decoder rejected its input.
#[derive(Debug, Clone, Copy, PartialEq, Eq, Structural)]
pub enum Error {
    /// The input does not start with a length: no digit, a zero-padded
    /// number, or no `:` after the digits.
    MissingLengthPrefix,
    /// Fewer bytes follow the `:` than the length announces.
    TruncatedPayload,
    /// The payload is complete and nothing follows it.
    MissingTypeTag,
    /// The byte after the payload is no type tag.
    InvalidPayloadType(u8),
    /// The payload of an integer is no decimal integer that fits.
    InvalidInteger,
    /// The payload of a floating-point number is no decimal literal that fits.
    InvalidFloat,
    /// The payload of a boolean is neither `true` nor `false`.
    InvalidBool,
    /// The payload of null is not empty.
    InvalidNull,
    /// A map's payload ends after a key.
    InvalidMap,
    /// A map's key is not a byte string.
    KeysCanOnlyBeStrings,
    /// A list or a map stands deeper in lists and maps than the caller allows.
    NestingTooDeep,
}

/// `String::push` of std: the character is appended.
pub assume_specification[ String::push ](text: &mut String, ch: char)
    ensures
        final(text)@ == old(text)@.push(ch),
;

impl Error {
    /// What is wrong, in words.
    pub fn to_string(&self) -> (text: String)
        ensures
            text@ == self.message(),
    {
        match self {
            Error::MissingLengthPrefix => String::from_str("missing length prefix"),
            Error::TruncatedPayload => String::from_str("truncated payload"),
            Error::MissingTypeTag => String::from_str("missing type tag"),
            Error::InvalidPayloadType(tag) => {
                let mut text = String::from_str("invalid payload type '");
                text.push(*tag as char);
                text.push('\'');
                text
            },
            Error::InvalidInteger => String::from_str("invalid integer"),
            Error::InvalidFloat => String::from_str("invalid float"),
            Error::InvalidBool => String::from_str("invalid bool"),
            Error::InvalidNull => String::from_str("invalid null"),
            Error::InvalidMap => String::from_str("invalid map"),
            Error::KeysCanOnlyBeStrings => String::from_str("keys can only be strings"),
            Error::NestingTooDeep => String::from_str("nesting too deep"),
        }
    }

    /// The words that say what is wrong. The type tag that was refused is
    /// shown between quotes, as the character with its number.
    pub open spec fn message(self) -> Seq<char> {
        match self {
            Error::MissingLengthPrefix => "missing length prefix"@,
            Error::TruncatedPayload => "truncated payload"@,
            Error::MissingTypeTag => "missing type tag"@,
            Error::InvalidPayloadType(tag) => "invalid payload type '"@.push(tag as char).push(
                '\'',
            ),
            Error::InvalidInteger => "invalid integer"@,
            Error::InvalidFloat => "invalid float"@,
            Error::InvalidBool => "invalid bool"@,
            Error::InvalidNull => "invalid null"@,
            Error::InvalidMap => "invalid map"@,
            Error::KeysCanOnlyBeStrings => "keys can only be strings"@,
            Error::NestingTooDeep => "nesting too deep"@,
        }
    }
}

} // verus!
