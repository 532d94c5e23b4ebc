//! Each byte as its decimal numeral; tokens read back as characters.

use vstd::prelude::*;
use crate::CodecError;
use crate::numeral::{decode_numerals, decoded, encode_numerals, joined};

verus! {

/// Writes each byte of `data` as its decimal numeral without leading zeros,
/// separated by one space when `formatted`, else run together.
pub fn encode(data: &[u8], formatted: bool) -> (r: String)
    ensures
        r@ == joined(data@, 10, formatted),
{
    encode_numerals(data, 10, formatted)
}

/// Reads space-separated decimal numerals of at most 255, giving for each the
/// character with that code point.
pub fn decode(data: String) -> (r: Result<String, CodecError>)
    ensures
        match r {
            Ok(s) => decoded(data@, 10) == Ok::<Seq<char>, CodecError>(s@),
            Err(e) => decoded(data@, 10) == Err::<Seq<char>, CodecError>(e),
        },
{
    decode_numerals(data.as_str(), 10)
}

} // verus!
