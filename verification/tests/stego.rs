use fqencoder::stego::{hide_secret, payload, reveal_secret, StegoError, MARK, ONE, ZERO};

#[test]
fn stego_round_trips() {
    for (secret, cover) in [
        ("FUCKYOu", "Have a nice day!"),
        ("你好世界", "Looks totally normal."),
        ("🌸", "hi"),
        ("x", "a"),
    ] {
        let s = hide_secret(secret, cover);
        assert_eq!(reveal_secret(&s).unwrap(), secret);
    }
}

#[test]
fn output_looks_like_cover() {
    let cover = "Have a nice day!";
    let s = hide_secret("secret", cover);
    let visible: String = s.chars().filter(|&c| c != ZERO && c != ONE && c != MARK).collect();
    assert_eq!(visible, cover);
}

#[test]
fn empty_cover_is_all_invisible() {
    let s = hide_secret("hi", "");
    assert!(s.chars().all(|c| c == ZERO || c == ONE || c == MARK));
    assert_eq!(reveal_secret(&s).unwrap(), "hi");
}

#[test]
fn no_payload_errors() {
    assert_eq!(reveal_secret("just plain text"), Err(StegoError::NoPayload));
}

#[test]
fn payload_exact_layout() {
    // 'A' = 0x41 = 0100_0001
    let p = payload("A");
    let expected: String = [MARK, ZERO, ONE, ZERO, ZERO, ZERO, ZERO, ZERO, ONE, MARK].iter().collect();
    assert_eq!(p, expected);
    let empty: String = [MARK, MARK].iter().collect();
    assert_eq!(payload(""), empty);
}

#[test]
fn hide_places_payload_after_first_character() {
    let s = hide_secret("A", "xy");
    let mut expected = String::from("x");
    expected.push_str(&payload("A"));
    expected.push('y');
    assert_eq!(s, expected);
}

#[test]
fn single_sentinel_is_no_payload() {
    let s: String = ['a', MARK, ZERO, ONE].iter().collect();
    assert_eq!(reveal_secret(&s), Err(StegoError::NoPayload));
}

#[test]
fn corrupt_payloads() {
    let empty: String = [MARK, MARK].iter().collect();
    assert_eq!(reveal_secret(&empty), Err(StegoError::Corrupt));
    let seven: String = [MARK, ZERO, ONE, ZERO, ZERO, ZERO, ZERO, ZERO, MARK].iter().collect();
    assert_eq!(reveal_secret(&seven), Err(StegoError::Corrupt));
    // The empty secret cannot be revealed.
    assert_eq!(reveal_secret(&hide_secret("", "cover")), Err(StegoError::Corrupt));
}

#[test]
fn not_utf8_payload() {
    // one byte 0xFF is not UTF-8
    let s: String = std::iter::once(MARK)
        .chain(std::iter::repeat(ONE).take(8))
        .chain(std::iter::once(MARK))
        .collect();
    assert_eq!(reveal_secret(&s), Err(StegoError::NotUtf8));
}

#[test]
fn other_characters_between_sentinels_are_skipped() {
    let s: String = [MARK, ZERO, 'q', ONE, ZERO, ZERO, ZERO, ZERO, ZERO, ONE, MARK, ONE].iter().collect();
    assert_eq!(reveal_secret(&s).unwrap(), "A");
}

#[test]
fn cover_starting_with_sentinel_breaks_the_round_trip() {
    let cover: String = [MARK, 'a'].iter().collect();
    assert_eq!(reveal_secret(&hide_secret("A", &cover)), Err(StegoError::Corrupt));
}

#[test]
fn error_codes() {
    assert_eq!(StegoError::NoPayload.code(), "stego_no_payload");
    assert_eq!(StegoError::Corrupt.code(), "stego_corrupt");
    assert_eq!(StegoError::NotUtf8.code(), "stego_not_utf8");
}

#[test]
fn only_zero_width_characters_matter() {
    let hidden = hide_secret("secret", "Have a nice day!");
    let noisy: String = hidden.chars().flat_map(|c| [c, 'z']).collect();
    assert_eq!(reveal_secret(&noisy), reveal_secret(&hidden));
    assert_eq!(reveal_secret(&noisy).unwrap(), "secret");
}
