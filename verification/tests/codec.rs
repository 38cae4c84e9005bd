use magma_proxy::codec::decode_var_int;
use magma_proxy::codec::encode_var_int;
use magma_proxy::codec::string16_decode;
use magma_proxy::codec::string16_encode;
use magma_proxy::codec::string8_decode;
use magma_proxy::codec::string8_encode;
use magma_proxy::codec::CodecError;

#[test]
fn varint_round_trip_values() {
    for v in [0u32, 1, 127, 128, 255, 754, 16383, 16384, 2097151, 2097152, u32::MAX] {
        let enc = encode_var_int(v);
        let (decoded, used) = decode_var_int(&enc, 0).expect("canonical encoding must decode");
        assert_eq!(decoded, v);
        assert_eq!(used, enc.len());
    }
}

#[test]
fn varint_exact_bytes() {
    assert_eq!(encode_var_int(0), vec![0x00]);
    assert_eq!(encode_var_int(1), vec![0x01]);
    assert_eq!(encode_var_int(127), vec![0x7F]);
    assert_eq!(encode_var_int(128), vec![0x80, 0x01]);
    assert_eq!(encode_var_int(754), vec![0xF2, 0x05]);
    assert_eq!(encode_var_int(25565), vec![0xDD, 0xC7, 0x01]);
    assert_eq!(encode_var_int(u32::MAX), vec![0xFF, 0xFF, 0xFF, 0xFF, 0x0F]);
}

#[test]
fn varint_malformed_after_five_continuations() {
    let buf = vec![0x80, 0x80, 0x80, 0x80, 0x80, 0x01];
    assert_eq!(decode_var_int(&buf, 0), Err(CodecError::MalformedVarint));
}

#[test]
fn varint_zero_padding_terminates() {
    // A short buffer reads as if zero-padded, and a zero byte terminates.
    let buf = vec![0x80];
    assert_eq!(decode_var_int(&buf, 0), Ok((0, 2)));
    let empty: Vec<u8> = Vec::new();
    assert_eq!(decode_var_int(&empty, 0), Ok((0, 1)));
}

#[test]
fn varint_decode_at_offset() {
    let buf = vec![0xFF, 0xF2, 0x05, 0x07];
    assert_eq!(decode_var_int(&buf, 1), Ok((754, 2)));
    assert_eq!(decode_var_int(&buf, 3), Ok((7, 1)));
}

#[test]
fn string16_exact_bytes() {
    let enc = string16_encode("hi!!").unwrap();
    assert_eq!(
        enc,
        vec![0x00, 0x04, 0x00, 0x68, 0x00, 0x69, 0x00, 0x21, 0x00, 0x21]
    );
}

#[test]
fn string16_round_trip() {
    for s in ["", "-", "hi!!", "héllo wörld", "猫と犬", "a\u{FFFD}b"] {
        let enc = string16_encode(s).unwrap();
        let (decoded, len) = string16_decode(&enc).unwrap();
        assert_eq!(decoded, s);
        assert_eq!(len as usize, s.chars().count());
    }
}

#[test]
fn string16_encode_rejects_overlong() {
    let long = "x".repeat(32768);
    assert_eq!(string16_encode(&long), Err(CodecError::MalformedString));
    let fits = "x".repeat(32767);
    assert!(string16_encode(&fits).is_ok());
}

#[test]
fn string16_decode_rejects_negative_length() {
    let buf = vec![0x80, 0x00];
    assert_eq!(string16_decode(&buf), Err(CodecError::MalformedString));
}

#[test]
fn string16_decode_rejects_short_buffer() {
    assert_eq!(string16_decode(&vec![0x00]), Err(CodecError::MalformedString));
    assert_eq!(
        string16_decode(&vec![0x00, 0x02, 0x00, 0x61]),
        Err(CodecError::MalformedString)
    );
}

#[test]
fn string16_decode_rejects_lone_surrogate() {
    let buf = vec![0x00, 0x01, 0xD8, 0x00];
    assert_eq!(string16_decode(&buf), Err(CodecError::MalformedString));
    let buf2 = vec![0x00, 0x01, 0xDC, 0x00];
    assert_eq!(string16_decode(&buf2), Err(CodecError::MalformedString));
}

#[test]
fn string16_surrogate_pair_decodes() {
    // U+1D11E as a surrogate pair: two code units announced as two units.
    let buf = vec![0x00, 0x02, 0xD8, 0x34, 0xDD, 0x1E];
    let (decoded, len) = string16_decode(&buf).unwrap();
    assert_eq!(decoded, "\u{1D11E}");
    assert_eq!(len, 2);
}

#[test]
fn string16_decode_ignores_trailing_bytes() {
    let buf = vec![0x00, 0x01, 0x00, 0x61, 0xFF, 0xFF];
    let (decoded, len) = string16_decode(&buf).unwrap();
    assert_eq!(decoded, "a");
    assert_eq!(len, 1);
}

#[test]
fn string8_exact_bytes() {
    let enc = string8_encode("hi!!").unwrap();
    assert_eq!(enc, vec![0x00, 0x04, 0x68, 0x69, 0x21, 0x21]);
}

#[test]
fn string8_round_trip() {
    for s in ["", "-", "hi!!", "héllo wörld", "猫と犬"] {
        let enc = string8_encode(s).unwrap();
        let (decoded, _) = string8_decode(&enc).unwrap();
        assert_eq!(decoded, s);
    }
}

#[test]
fn string8_nul_uses_two_byte_form() {
    // Modified UTF-8 encodes U+0000 as C0 80, and the count is in bytes.
    let enc = string8_encode("a\0b").unwrap();
    assert_eq!(enc, vec![0x00, 0x04, 0x61, 0xC0, 0x80, 0x62]);
    let (decoded, len) = string8_decode(&enc).unwrap();
    assert_eq!(decoded, "a\0b");
    assert_eq!(len, 4);
}

#[test]
fn string8_decode_rejects_invalid_body() {
    // A well-formed frame whose body is not modified UTF-8 must fail, not
    // pass through: a lone continuation byte, and a truncated three-byte form.
    let lone = vec![0x00, 0x01, 0xFF];
    assert_eq!(string8_decode(&lone), Err(CodecError::MalformedString));
    let truncated = vec![0x00, 0x02, 0xED, 0xA0];
    assert_eq!(string8_decode(&truncated), Err(CodecError::MalformedString));
}

#[test]
fn string8_nul_alone_exact_bytes() {
    // The defining clause of modified UTF-8: U+0000 is the two-byte C0 80,
    // counted as two bytes in the frame.
    let enc = string8_encode("\u{0}").unwrap();
    assert_eq!(enc, vec![0x00, 0x02, 0xC0, 0x80]);
    let (decoded, len) = string8_decode(&enc).unwrap();
    assert_eq!(decoded, "\u{0}");
    assert_eq!(len, 2);
}

#[test]
fn string8_encode_rejects_overlong() {
    let long = "x".repeat(32768);
    assert_eq!(string8_encode(&long), Err(CodecError::MalformedString));
    let fits = "x".repeat(32767);
    assert!(string8_encode(&fits).is_ok());
}

#[test]
fn string8_decode_rejects_negative_length() {
    let buf = vec![0xFF, 0xFF, 0x61];
    assert_eq!(string8_decode(&buf), Err(CodecError::MalformedString));
}

#[test]
fn string8_decode_rejects_short_buffer() {
    assert_eq!(string8_decode(&vec![0x00]), Err(CodecError::MalformedString));
    assert_eq!(
        string8_decode(&vec![0x00, 0x03, 0x61]),
        Err(CodecError::MalformedString)
    );
}
