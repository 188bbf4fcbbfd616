[package]
name = "niri_display"
version = "0.1.0"
edition = "2021"
publish = false

[dependencies]
serde_json = { version = "1", features = ["float_roundtrip"] }
xcursor = "0.3"
libc = "0.2"
smithay-client-toolkit = { version = "0.19", default-features = false }
