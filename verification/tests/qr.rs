use fqencoder::qr::{qr_png, qr_rgba, qr_svg};

#[test]
fn qr_svg_renders_short_text() {
    let svg = qr_svg("CuOFFFFKUCOFFFY").unwrap();
    assert!(svg.contains("<svg"));
    assert!(svg.contains("#1c1c1e"));
    assert!(svg.contains("#ffffff"));
}

#[test]
fn qr_png_is_a_png_file() {
    let png = qr_png("CuOFFFFKUCOFFFY").unwrap();
    assert_eq!(&png[..8], &[0x89, b'P', b'N', b'G', 0x0D, 0x0A, 0x1A, 0x0A]);
}

#[test]
fn qr_rgba_is_at_least_600_square() {
    let (px, w, h) = qr_rgba("hello").unwrap();
    assert!(w >= 600 && h >= 600);
    assert_eq!(w, h);
    assert_eq!(px.len(), (w * h * 4) as usize);
}

#[test]
fn qr_rejects_text_that_does_not_fit() {
    let long = "a".repeat(5000);
    assert_eq!(qr_svg(&long), Err("qr_too_long".to_string()));
    assert_eq!(qr_png(&long), Err("qr_too_long".to_string()));
    assert_eq!(qr_rgba(&long), Err("qr_too_long".to_string()));
}
