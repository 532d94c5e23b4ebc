//! Codecs between byte sequences and their textual forms: Base64,
//! hexadecimal, space-separated binary numerals and decimal numerals.

use vstd::prelude::*;

pub mod base64;
pub mod binary;
pub mod bytes;
pub mod hex;
pub mod numeral;
pub mod text;

verus! {

/// Why a decoder refused its input.
#[derive(Debug, Clone, Copy, PartialEq, Eq, Structural)]
pub enum CodecError {
    /// The input does not split into the codec's fixed-size groups.
    MalformedGrouping,
    /// A character or token lies outside the codec's alphabet or numeral range.
    InvalidSymbol,
    /// The decoded bytes are not valid UTF-8 text.
    InvalidTextSequence,
}

} // verus!
