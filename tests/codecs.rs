use encodings::{base64, binary, bytes, hex, CodecError};

#[test]
fn base64_encode_test() {
    let test_data = "Hello World";
    let expected = "SGVsbG8gV29ybGQ=";

    assert_eq!(base64::encode(test_data.as_bytes()), expected)
}

#[test]
fn base64_decode_test() {
    let test_data = "SGVsbG8gV29ybGQ=";
    let expected = "Hello World";

    assert_eq!(base64::decode(test_data.as_bytes()).unwrap(), expected)
}

#[test]
fn binary_encode_test() {
    let test_data = "Hello World";
    let expected = "1001000 1100101 1101100 1101100 1101111 100000 1010111 1101111 1110010 1101100 1100100";

    assert_eq!(binary::encode(test_data.as_bytes(), true), expected)
}

#[test]
fn binary_decode_test() {
    let test_data = "1001000 1100101 1101100 1101100 1101111 100000 1010111 1101111 1110010 1101100 1100100";
    let expected = "Hello World";

    assert_eq!(binary::decode(test_data.into()).unwrap(), expected)
}

#[test]
fn bytes_decode_test() {
    let test_data = "72 101 108 108 111 32 87 111 114 108 100";
    let expected = "Hello World";

    assert_eq!(bytes::decode(test_data.into()).unwrap(), expected)
}

#[test]
fn bytes_encode_test() {
    let test_data = "Hello World";
    let expected = "72 101 108 108 111 32 87 111 114 108 100";

    assert_eq!(bytes::encode(test_data.as_bytes(), true), expected)
}

#[test]
fn hex_decode_test() {
    let test_data = "48656c6c6f20576f726c64";
    let expected = "Hello World";

    let decoding_result = hex::decode(test_data).unwrap();
    let s = std::str::from_utf8(&decoding_result).unwrap();

    assert_eq!(s, expected)
}

#[test]
fn hex_encode_test() {
    let test_data = "Hello World";
    let expected = "48656c6c6f20576f726c64";

    assert_eq!(hex::encode(test_data.as_bytes()), expected)
}

#[test]
fn base64_round_trip_ascii() {
    for text in ["a", "ab", "Hello World", "The quick brown fox!", "~~~~"] {
        let encoded = base64::encode(text.as_bytes());
        assert_eq!(base64::decode(encoded.as_bytes()).unwrap(), text);
    }
}

#[test]
fn base64_round_trip_bytes_without_zeros() {
    let data: Vec<u8> = vec![1, 255, 128, 7, 200, 63];
    let encoded = base64::encode(&data);
    assert_eq!(encoded, "Af+AB8g/");
    assert_eq!(base64::decode_bytes(encoded.as_bytes()).unwrap(), data);
}

#[test]
fn hex_round_trip_all_bytes() {
    let data: Vec<u8> = (0..=255u8).collect();
    let encoded = hex::encode(&data);
    assert_eq!(hex::decode(&encoded).unwrap(), data);
}

#[test]
fn empty_inputs_encode_to_empty_text() {
    assert_eq!(base64::encode(&[]), "");
    assert_eq!(hex::encode(&[]), "");
    assert_eq!(binary::encode(&[], true), "");
    assert_eq!(bytes::encode(&[], true), "");
}

#[test]
fn base64_length_is_padded_to_four() {
    for n in 1..20usize {
        let data: Vec<u8> = vec![b'x'; n];
        let encoded = base64::encode(&data);
        assert_eq!(encoded.len() % 4, 0);
        assert_eq!(encoded.len(), 4 * ((n + 2) / 3));
    }
}

#[test]
fn base64_padding() {
    assert_eq!(base64::encode(b"M"), "TQ==");
    assert_eq!(base64::encode(b"Ma"), "TWE=");
    assert_eq!(base64::encode(b"Man"), "TWFu");
}

#[test]
fn hex_length_is_twice_the_bytes() {
    for n in 0..10usize {
        let data: Vec<u8> = vec![0xab; n];
        assert_eq!(hex::encode(&data).len(), 2 * n);
    }
}

#[test]
fn hex_digits_are_lowercase_and_padded() {
    assert_eq!(hex::encode(&[0x00, 0x0f, 0xa0, 0xff]), "000fa0ff");
}

#[test]
fn hex_decode_accepts_uppercase() {
    assert_eq!(hex::decode("4A4b").unwrap(), vec![0x4a, 0x4b]);
}

#[test]
fn hex_decode_rejects_odd_length() {
    assert_eq!(hex::decode("abc"), Err(CodecError::MalformedGrouping));
}

#[test]
fn hex_decode_rejects_non_hex_digit() {
    assert_eq!(hex::decode("4g"), Err(CodecError::InvalidSymbol));
}

#[test]
fn binary_decode_rejects_non_binary_digit() {
    assert_eq!(binary::decode("102".into()), Err(CodecError::InvalidSymbol));
    assert_eq!(binary::decode("1 x".into()), Err(CodecError::InvalidSymbol));
    assert_eq!(binary::decode("+1".into()), Err(CodecError::InvalidSymbol));
}

#[test]
fn binary_decode_rejects_value_above_255() {
    assert_eq!(binary::decode("100000000".into()), Err(CodecError::InvalidSymbol));
}

#[test]
fn bytes_decode_rejects_bad_tokens() {
    assert_eq!(bytes::decode("256".into()), Err(CodecError::InvalidSymbol));
    assert_eq!(bytes::decode("72 1a1".into()), Err(CodecError::InvalidSymbol));
    assert_eq!(bytes::decode("99999999999999999999".into()), Err(CodecError::InvalidSymbol));
}

#[test]
fn numeral_decode_rejects_empty_tokens() {
    assert_eq!(bytes::decode("".into()), Err(CodecError::InvalidSymbol));
    assert_eq!(bytes::decode("72  101".into()), Err(CodecError::InvalidSymbol));
    assert_eq!(binary::decode("1 ".into()), Err(CodecError::InvalidSymbol));
}

#[test]
fn numeral_decode_accepts_leading_zeros() {
    assert_eq!(binary::decode("00001000".into()).unwrap(), "\u{8}");
    assert_eq!(bytes::decode("065 255".into()).unwrap(), "A\u{ff}");
}

#[test]
fn binary_encode_drops_leading_zeros() {
    assert_eq!(binary::encode(&[8, 0, 255], true), "1000 0 11111111");
    assert_eq!(binary::encode(&[1, 2], false), "110");
}

#[test]
fn bytes_encode_unformatted_runs_together() {
    assert_eq!(bytes::encode(&[1, 23], false), "123");
    assert_eq!(bytes::encode(&[12, 3], false), "123");
    assert_eq!(bytes::encode(&[0, 9, 10, 255], true), "0 9 10 255");
}

#[test]
fn base64_decode_rejects_length_not_multiple_of_four() {
    assert_eq!(base64::decode(b"SGVsbG8"), Err(CodecError::MalformedGrouping));
    assert_eq!(base64::decode_bytes(b"a"), Err(CodecError::MalformedGrouping));
}

#[test]
fn base64_decode_reads_unknown_symbols_as_zero() {
    assert_eq!(base64::decode(b"TQ==").unwrap(), "M");
    assert_eq!(base64::decode(b"T!==").unwrap(), "L");
    assert_eq!(base64::decode_bytes(b"AAAA").unwrap(), Vec::<u8>::new());
}

#[test]
fn base64_decode_drops_embedded_zero_bytes() {
    let encoded = base64::encode(&[65, 0, 66]);
    assert_eq!(encoded, "QQBC");
    assert_eq!(base64::decode(encoded.as_bytes()).unwrap(), "AB");
}

#[test]
fn base64_decode_rejects_invalid_utf8() {
    assert_eq!(base64::decode(b"/w=="), Err(CodecError::InvalidTextSequence));
    assert_eq!(base64::decode_bytes(b"/w==").unwrap(), vec![0xff]);
}

#[test]
fn base64_decode_keeps_multibyte_text() {
    let encoded = base64::encode("héllo".as_bytes());
    assert_eq!(base64::decode(encoded.as_bytes()).unwrap(), "héllo");
}
