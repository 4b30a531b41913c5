[package]
name = "fqencoder"
version = "0.1.0"
edition = "2021"
publish = false

[dependencies]
sha2 = "0.10"
qrcode = "0.14"
image = { version = "0.25", default-features = false, features = ["png"] }
sys-locale = "0.3"
