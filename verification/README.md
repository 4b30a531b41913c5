# fqencoder

Keyed text obfuscation into the seven letters `F U C K Y O u`, and zero-width
steganography, as a Verus-verified library.

- `src/keystream.rs` — SHA-256 counter-mode keystream XOR (SHA-256 from the `sha2` crate).
- `src/diffusion.rs` — forward and backward additive chains mod 256, and their inverses.
- `src/base7.rs` — three alphabet symbols per byte, and the checked unpacking.
- `src/codec.rs` — `encode`, `decode`, `looks_encoded`, and the round-trip laws.
- `src/stego.rs` — hiding a secret as zero-width characters in a cover text, and revealing it.
- `src/monitor.rs` — the clipboard monitor's decisions (what is new, what to write back).
- `src/qr.rs` — QR codes of a text as SVG, PNG or RGBA pixels (rendered by the `qrcode` and `image` crates).
- `src/hotkey.rs` — the decisions around replacing the global hotkey.
- `src/labels.rs` — tray labels chosen by the system locale.
- `src/text.rs` — string helpers (`String::push`, `String::from_utf8`, UTF-8 facts).
- `app/` — the Tauri desktop shell around the library.
