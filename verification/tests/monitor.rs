use fqencoder::codec::encode;
use fqencoder::monitor::{reply, Monitor};

#[test]
fn monitor_skips_blank_and_repeated_text() {
    let mut m = Monitor::new();
    assert!(!m.observe(&"   \n".to_string()));
    let t = "hello".to_string();
    assert!(m.observe(&t));
    assert!(!m.observe(&t));
    assert!(m.observe(&"other".to_string()));
}

#[test]
fn monitor_ignores_its_own_write() {
    let mut m = Monitor::new();
    let t = "hello".to_string();
    assert!(m.observe(&t));
    let r = reply(&t, "k").unwrap();
    m.record_written(&r);
    assert!(!m.observe(&r));
}

#[test]
fn reply_encodes_plain_text_and_decodes_encoded_text() {
    let t = "Hello".to_string();
    let e = reply(&t, "pw").unwrap();
    assert_eq!(e, encode("Hello", "pw"));
    assert_eq!(reply(&format!("  {e}\n"), "pw"), Some("Hello".to_string()));
}

#[test]
fn reply_never_returns_unchanged_or_empty() {
    // an encoded text that decodes to itself cannot exist for printable text here,
    // but an encoded text that fails to decode yields nothing
    assert_eq!(reply(&"uuu".to_string(), "pw"), Some(encode("uuu", "pw")));
    assert_eq!(reply(&"".to_string(), "pw"), None);
}

#[test]
fn unicode_white_space_counts_as_blank() {
    let mut m = Monitor::new();
    assert!(!m.observe(&"\u{3000}\u{A0}\t\u{2029}".to_string()));
    assert!(m.observe(&"\u{3000}x\u{A0}".to_string()));
}
