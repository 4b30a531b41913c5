//! Keyed text obfuscation into a seven-letter alphabet, and zero-width
//! steganography, with their round-trip laws proved.

pub mod text;
pub mod base7;
pub mod diffusion;
pub mod keystream;
pub mod codec;
pub mod stego;
pub mod monitor;
pub mod qr;
pub mod labels;
pub mod hotkey;
