[package]
name = "starforge-math"
version = "0.1.0"
edition = "2021"
publish = false

[dependencies]
sha2 = "0.10"
tiny-keccak = { version = "2.0", features = ["keccak"] }
serde_json = "1"
anchor-lang = "0.31.1"
