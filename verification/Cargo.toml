[package]
name = "peer_review"
version = "0.1.0"
edition = "2021"
publish = false

[dependencies]
sha2 = "=0.10.9"
near-sdk = { version = "=5.15.1", features = ["non-contract-usage"] }
