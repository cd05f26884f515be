[package]
name = "block_payload"
version = "0.1.0"
edition = "2021"
publish = false

[dependencies]
sha2 = "*"
sha3 = "*"
committable = "*"
tagged-base64 = "*"
serde = { version = "*", features = ["derive"] }
serde_json = "*"
