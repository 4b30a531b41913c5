use fqencoder::codec::{decode, encode, looks_encoded, CodecError};

/// Fixed vectors of the wire format.
/// (key, plaintext, encoded)
const GOLDEN: &[(&str, &str, &str)] = &[
    ("pw", "Hello", "CuOFFFFKUCOFFFY"),
    ("secret", "你好 🌍", "YCCCYFUYYCOOCuOUuYCCKKCYOFuCUuYFK"),
    ("", "A", "YOu"),
    ("hunter2", "FQEncoder", "CYKUKOCCCFuUCUYOFuKCYCCFYYO"),
    ("anything", "", ""),
    (
        "key123",
        "The quick brown fox",
        "OUUYCYFKCFuOFOYUuUKCCYFUUuFKUFCFKYUYKCCKuKUYYYOKKUuCCOUYF",
    ),
];

#[test]
fn matches_swift_golden_vectors() {
    for (key, plain, encoded) in GOLDEN {
        assert_eq!(&encode(plain, key), encoded, "encode mismatch for {plain:?}");
        assert_eq!(&decode(encoded, key).unwrap(), plain, "decode mismatch for {encoded:?}");
    }
}

#[test]
fn codec_round_trips() {
    for s in ["", "A", "Hello, World!", "日本語テスト🌸", "FUCKYOu"] {
        let e = encode(s, "round-trip-key");
        assert_eq!(decode(&e, "round-trip-key").unwrap(), s);
    }
}

#[test]
fn wrong_password_rejected() {
    let e = encode("天才", "right");
    assert!(decode(&e, "wrong").is_err());
}

#[test]
fn avalanche_no_shared_prefix() {
    let a = encode("A", "k");
    let ab = encode("AB", "k");
    assert!(!ab.starts_with(&a), "similar inputs must not share an output prefix");
}

#[test]
fn validation_errors() {
    assert_eq!(decode("FF", "k"), Err(CodecError::InvalidLength));
    assert_eq!(decode("FFx", "k"), Err(CodecError::InvalidCharacter('x')));
    assert_eq!(decode("uuu", "k"), Err(CodecError::InvalidByte)); // 6*49+6*7+6 = 342 > 255
    assert!(!looks_encoded("hello world", "k"));
}

#[test]
fn encoding_is_three_symbols_per_utf8_byte() {
    for s in ["", "A", "你好 🌍", "The quick brown fox"] {
        let e = encode(s, "k");
        assert_eq!(e.chars().count(), 3 * s.len());
        assert!(e.chars().all(|c| "FUCKYOu".contains(c)));
    }
}

#[test]
fn encoding_looks_encoded_iff_text_not_empty() {
    assert!(looks_encoded(&encode("Hello", "pw"), "pw"));
    assert!(looks_encoded(&encode("你好", ""), ""));
    assert!(!looks_encoded(&encode("", "pw"), "pw"));
}

#[test]
fn looks_encoded_rejects_each_failing_condition() {
    assert!(!looks_encoded("", "k"));
    assert!(!looks_encoded("FF", "k"));
    assert!(!looks_encoded("FFx", "k"));
    assert!(!looks_encoded("uuu", "k"));
    assert!(looks_encoded("CuOFFFFKUCOFFFY", "pw"));
}

#[test]
fn invalid_character_reports_first_offender() {
    assert_eq!(decode("FFFxyz", "k"), Err(CodecError::InvalidCharacter('x')));
    assert_eq!(decode("Fx!", "k"), Err(CodecError::InvalidCharacter('x')));
    assert_eq!(decode("uuuFFx", "k"), Err(CodecError::InvalidByte));
    assert_eq!(decode("FUCKYOu", "k"), Err(CodecError::InvalidLength));
}

#[test]
fn not_utf8_error() {
    // "FFF" is the single byte 0; undiffused it is 0xE3, and under key "k" the
    // first keystream byte turns it into 0x95, a lone continuation byte.
    assert_eq!(decode("FFF", "k"), Err(CodecError::NotUtf8));
    // Under key "b" the same symbols decode to the single character 'P' (0x50).
    assert_eq!(decode("FFF", "b"), Ok("P".to_string()));
}

#[test]
fn decoded_text_reencodes_to_the_same_string() {
    let t = "CuOFFFFKUCOFFFY";
    let s = decode(t, "pw").unwrap();
    assert_eq!(encode(&s, "pw"), t);
}

#[test]
fn error_messages() {
    assert_eq!(
        CodecError::InvalidLength.message(),
        "輸入長度必須是 3 的倍數，這不是合法的編碼字串。"
    );
    assert_eq!(
        CodecError::InvalidCharacter('x').message(),
        "包含非法字元「x」，編碼字串只能由 F U C K Y O u 組成。"
    );
    assert_eq!(
        CodecError::InvalidByte.message(),
        "包含無效的編碼組合，這不是由 FQEncoder 產生的字串。"
    );
    assert_eq!(
        CodecError::NotUtf8.message(),
        "解碼失敗，可能是密碼不正確，或這不是 FQEncoder 編出來的字串。"
    );
}

#[test]
fn codec_error_codes() {
    assert_eq!(CodecError::InvalidLength.code(), "invalid_length");
    assert_eq!(CodecError::InvalidCharacter('x').code(), "invalid_character:x");
    assert_eq!(CodecError::InvalidByte.code(), "invalid_byte");
    assert_eq!(CodecError::NotUtf8.code(), "not_utf8");
    assert_eq!(decode("FFx", "k").unwrap_err().code(), "invalid_character:x");
}
