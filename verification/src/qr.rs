//! QR codes of a text, for sharing an encoded string. Making the code and
//! rendering it (SVG, PNG or raw RGBA pixels) is the work of the `qrcode` and
//! `image` crates; this module decides what is handed to them and what a
//! failure is reported as.

use vstd::prelude::*;
use vstd::string::StringExecFns;
use vstd::utf8::encode_utf8;
use qrcode::render::svg;

verus! {

/// Why the `qrcode` crate could not make a QR code.
#[verifier::external_type_specification]
#[verifier::external_body]
pub struct ExQrError(qrcode::types::QrError);

/// Whether `qrcode::QrCode::new` can fit `data` in a QR code (medium error
/// correction, smallest fitting version).
pub uninterp spec fn qr_encodable(data: Seq<u8>) -> bool;

/// The SVG text of the QR code of `data`, rendered at least `min_size` units
/// square with a quiet zone, dark modules in `dark` and light ones in `light`.
pub uninterp spec fn qr_svg_image(data: Seq<u8>, min_size: u32, dark: Seq<char>, light: Seq<char>) -> Seq<char>;

/// The PNG file of the QR code of `data` as 8-bit grey pixels, at least
/// `min_size` pixels square with a quiet zone; `None` when PNG encoding fails.
pub uninterp spec fn qr_png_image(data: Seq<u8>, min_size: u32) -> Option<Seq<u8>>;

/// The RGBA pixels, width and height of the QR code of `data`, at least
/// `min_size` pixels square with a quiet zone.
pub uninterp spec fn qr_rgba_image(data: Seq<u8>, min_size: u32) -> (Seq<u8>, u32, u32);

/// Calls `qrcode::QrCode::new` on `data`, then `render::<svg::Color>()` with
/// `min_dimensions`, `quiet_zone`, `dark_color`, `light_color` and `build`.
/// Trusted: it succeeds exactly when `qr_encodable(data)`, and the text is
/// `qr_svg_image` of the arguments. Sizes are bounded so that the renderer's
/// `u32` size arithmetic cannot overflow.
#[verifier::external_body]
fn qr_svg_of(data: &[u8], min_size: u32, dark: &str, light: &str) -> (r: Result<String, qrcode::types::QrError>)
    requires
        min_size <= 4096,
    ensures
        r is Ok <==> qr_encodable(data@),
        r matches Ok(s) ==> s@ == qr_svg_image(data@, min_size, dark@, light@),
{
    let code = qrcode::QrCode::new(data)?;
    Ok(code.render::<svg::Color>()
        .min_dimensions(min_size, min_size)
        .quiet_zone(true)
        .dark_color(svg::Color(dark))
        .light_color(svg::Color(light))
        .build())
}

/// Calls `qrcode::QrCode::new` on `data`, renders it as `image::Luma<u8>`
/// pixels (`min_dimensions`, `quiet_zone`, `build`) and writes a PNG with
/// `image::DynamicImage::write_to`, the error turned into its text.
/// Trusted: the outer result is `Ok` exactly when `qr_encodable(data)`; the
/// PNG is `qr_png_image` of the arguments, which is `None` when writing fails.
/// The error text is not stated.
#[verifier::external_body]
fn qr_png_of(data: &[u8], min_size: u32) -> (r: Result<Result<Vec<u8>, String>, qrcode::types::QrError>)
    requires
        min_size <= 4096,
    ensures
        r is Ok <==> qr_encodable(data@),
        r matches Ok(Ok(png)) ==> qr_png_image(data@, min_size) == Some(png@),
        r matches Ok(Err(_)) ==> qr_png_image(data@, min_size) is None,
{
    let code = qrcode::QrCode::new(data)?;
    let luma = code.render::<image::Luma<u8>>().min_dimensions(min_size, min_size).quiet_zone(true).build();
    let mut png = Vec::new();
    match image::DynamicImage::ImageLuma8(luma).write_to(&mut std::io::Cursor::new(&mut png), image::ImageFormat::Png) {
        Ok(()) => Ok(Ok(png)),
        Err(e) => Ok(Err(e.to_string())),
    }
}

/// Calls `qrcode::QrCode::new` on `data`, renders it as `image::Luma<u8>`
/// pixels (`min_dimensions`, `quiet_zone`, `build`) and converts them with
/// `image::DynamicImage::to_rgba8`, giving the raw pixels and the size.
/// Trusted: it succeeds exactly when `qr_encodable(data)`, and the result is
/// `qr_rgba_image` of the arguments: a square image at least `min_size`
/// pixels wide (the renderer rounds the module size up), with four bytes per
/// pixel.
#[verifier::external_body]
fn qr_rgba_of(data: &[u8], min_size: u32) -> (r: Result<(Vec<u8>, u32, u32), qrcode::types::QrError>)
    requires
        min_size <= 4096,
    ensures
        r is Ok <==> qr_encodable(data@),
        r matches Ok((px, w, h)) ==> qr_rgba_image(data@, min_size) == (px@, w, h),
        r matches Ok((px, w, h)) ==> w >= min_size && h == w && px@.len() == 4 * w * h,
{
    let code = qrcode::QrCode::new(data)?;
    let luma = code.render::<image::Luma<u8>>().min_dimensions(min_size, min_size).quiet_zone(true).build();
    let rgba = image::DynamicImage::ImageLuma8(luma).to_rgba8();
    let (w, h) = (rgba.width(), rgba.height());
    Ok((rgba.into_raw(), w, h))
}

/// The error reported for a text that does not fit in a QR code.
pub open spec fn too_long_code() -> Seq<char> {
    "qr_too_long"@
}

/// `text` as a scannable QR code in SVG (at least 220 units square, with a
/// quiet zone, dark modules #1c1c1e on #ffffff), or `"qr_too_long"`.
pub fn qr_svg(text: &str) -> (r: Result<String, String>)
    ensures
        r is Ok <==> qr_encodable(encode_utf8(text@)),
        r matches Ok(svg) ==> svg@ == qr_svg_image(encode_utf8(text@), 220, "#1c1c1e"@, "#ffffff"@),
        r matches Err(e) ==> e@ == too_long_code(),
{
    match qr_svg_of(text.as_bytes(), 220, "#1c1c1e", "#ffffff") {
        Ok(svg) => Ok(svg),
        Err(_) => Err(String::from_str("qr_too_long")),
    }
}

/// `text` as a QR code in a PNG file (at least 600 pixels square, with a
/// quiet zone), `"qr_too_long"` when it does not fit, or the PNG encoder's
/// error text.
pub fn qr_png(text: &str) -> (r: Result<Vec<u8>, String>)
    ensures
        !qr_encodable(encode_utf8(text@)) ==> (r matches Err(e) && e@ == too_long_code()),
        qr_encodable(encode_utf8(text@)) ==> (r is Ok <==> qr_png_image(encode_utf8(text@), 600) is Some),
        r matches Ok(png) ==> qr_png_image(encode_utf8(text@), 600) == Some(png@),
{
    match qr_png_of(text.as_bytes(), 600) {
        Ok(Ok(png)) => Ok(png),
        Ok(Err(message)) => Err(message),
        Err(_) => Err(String::from_str("qr_too_long")),
    }
}

/// `text` as a QR code in raw RGBA pixels with its width and height (a square
/// at least 600 pixels wide, four bytes per pixel, with a quiet zone), or
/// `"qr_too_long"`.
pub fn qr_rgba(text: &str) -> (r: Result<(Vec<u8>, u32, u32), String>)
    ensures
        r is Ok <==> qr_encodable(encode_utf8(text@)),
        r matches Ok((px, w, h)) ==> qr_rgba_image(encode_utf8(text@), 600) == (px@, w, h),
        r matches Ok((px, w, h)) ==> w >= 600 && h == w && px@.len() == 4 * w * h,
        r matches Err(e) ==> e@ == too_long_code(),
{
    match qr_rgba_of(text.as_bytes(), 600) {
        Ok(image) => Ok(image),
        Err(_) => Err(String::from_str("qr_too_long")),
    }
}

} // verus!
