[package]
name = "rair"
version = "0.1.0"
edition = "2021"
publish = false

[dependencies]
serde = { version = "1", features = ["derive"] }
serde_cbor = "0.11"
flate2 = "1"
