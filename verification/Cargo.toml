[package]
name = "paydrop"
version = "0.1.0"
edition = "2021"
publish = false

[dependencies]
near-sdk = { version = "=5.29.1", features = ["non-contract-usage"] }
serde_json = "=1.0.151"
borsh = { version = "=1.8.1", features = ["derive"] }
