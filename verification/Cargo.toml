[package]
name = "matching_engine"
version = "0.1.0"
edition = "2021"
publish = false

[dependencies]
hex = "0.4"
memmap2 = "0.9"
primitive-types = "0.12"
rusqlite = { version = "0.31", features = ["bundled"] }
secp256k1 = { version = "0.29", features = ["recovery"] }
sha2 = "0.10"
thiserror = "1"
