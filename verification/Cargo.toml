[package]
name = "bifrost"
version = "0.1.0"
edition = "2021"
publish = false

[dependencies]
crc32c = "*"
serde = { version = "1", features = ["derive"] }
serde_json = "1"
