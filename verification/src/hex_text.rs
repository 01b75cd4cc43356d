//! Bytes written in hexadecimal.

use vstd::prelude::*;

verus! {

/// Why a text is not a run of hexadecimal bytes.
#[derive(Debug, Clone, Copy, PartialEq, Eq, Structural)]
pub enum HexError {
    InvalidHexCharacter { c: char, index: usize },
    OddLength,
    InvalidStringLength,
}

/// The bytes of a text.
pub open spec fn text_bytes(text: Seq<char>) -> Seq<u8> {
    vstd::utf8::encode_utf8(text)
}

/// Whether a byte is a hexadecimal digit, in either case.
pub open spec fn is_hex_digit(byte: u8) -> bool {
    0x30 <= byte <= 0x39 || 0x41 <= byte <= 0x46 || 0x61 <= byte <= 0x66
}

/// The value of a hexadecimal digit.
pub open spec fn hex_digit(byte: u8) -> int {
    if byte <= 0x39 {
        byte - 0x30
    } else if byte <= 0x46 {
        byte - 0x41 + 10
    } else {
        byte - 0x61 + 10
    }
}

/// The bytes that pairs of hexadecimal digits write, the higher digit first.
pub open spec fn hex_pairs(digits: Seq<u8>) -> Seq<u8> {
    Seq::new(
        digits.len() / 2,
        |i: int| (16 * hex_digit(digits[2 * i]) + hex_digit(digits[2 * i + 1])) as u8,
    )
}

/// Whether `index` is the first place without a hexadecimal digit.
pub open spec fn first_non_digit(digits: Seq<u8>, index: int) -> bool {
    &&& 0 <= index < digits.len()
    &&& !is_hex_digit(digits[index])
    &&& forall|i: int| 0 <= i < index ==> is_hex_digit(#[trigger] digits[i])
}

/// Whether a text is an even number of hexadecimal digits.
pub open spec fn is_hex(digits: Seq<u8>) -> bool {
    &&& digits.len() % 2 == 0
    &&& forall|i: int| 0 <= i < digits.len() ==> is_hex_digit(#[trigger] digits[i])
}

/// Whether an error is the one that a text is refused with: `OddLength` where
/// its number of bytes is odd, else the first byte that is no digit, taken as
/// a character, with its index.
pub open spec fn is_failure(digits: Seq<u8>, error: HexError) -> bool {
    match error {
        HexError::OddLength => digits.len() % 2 != 0,
        HexError::InvalidHexCharacter { c, index } => {
            &&& digits.len() % 2 == 0
            &&& first_non_digit(digits, index as int)
            &&& c == digits[index as int] as char
        },
        HexError::InvalidStringLength => false,
    }
}

/// Calls `hex::decode`.  Trusted: on an even number of hexadecimal digits, in
/// either case, it returns the bytes that their pairs write.  Otherwise it
/// fails: with `OddLength` where the number of bytes of the text is odd, else
/// with the first byte that is no digit, taken as a character, and its index.
#[verifier::external_body]
pub(crate) fn decode(text: &str) -> (result: Result<Vec<u8>, HexError>)
    ensures
        match result {
            Ok(bytes) => is_hex(text_bytes(text@)) && bytes@ == hex_pairs(text_bytes(text@)),
            Err(error) => is_failure(text_bytes(text@), error),
        },
{
    match hex::decode(text) {
        Ok(bytes) => Ok(bytes),
        Err(hex::FromHexError::InvalidHexCharacter { c, index }) => {
            Err(HexError::InvalidHexCharacter { c, index })
        },
        Err(hex::FromHexError::OddLength) => Err(HexError::OddLength),
        Err(hex::FromHexError::InvalidStringLength) => Err(HexError::InvalidStringLength),
    }
}

} // verus!
