[package]
name = "cmx_report"
version = "0.1.0"
edition = "2021"
publish = false

[dependencies]
rust_decimal = "1"
xxhash-rust = { version = "0.8", features = ["xxh64"] }
sha2 = "0.10"
base64 = "0.22"
serde = { version = "1", features = ["derive"] }
serde_json = "1"
