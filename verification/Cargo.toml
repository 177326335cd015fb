[package]
name = "sdmm"
version = "0.1.0"
edition = "2021"
publish = false

[dependencies]
blake3 = "*"
indexmap = "*"
infer = "*"
serde = { version = "*", features = ["derive"] }
serde_json = "*"
ron = "*"
