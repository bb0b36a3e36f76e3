[package]
name = "resharding"
version = "0.1.0"
edition = "2021"
publish = false

[dependencies]
anyhow = "1"
near-async = "*"
near-crypto = "*"
near-primitives = "*"
serde = { version = "1", features = ["derive"] }
serde_json = "1"
tracing = "0.1"
