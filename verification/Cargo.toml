[package]
name = "braid"
version = "0.1.0"
edition = "2021"
publish = false

[dependencies]
rand = "*"
secp256k1 = "*"
sha2 = "*"
serde = { version = "*", features = ["derive"] }
serde_json = "*"
