[package]
name = "witness"
version = "0.1.0"
edition = "2021"
publish = false

[dependencies]
arbitrary = "1"
hex-conservative = "0.3"
serde = "1"

[dev-dependencies]
bincode = "1.3"
serde_json = "1"
