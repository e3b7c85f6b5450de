[package]
name = "wdht"
version = "0.1.0"
edition = "2021"
publish = false

[dependencies]
hex = "0.4"
sha2 = "0.10"
p256 = { version = "0.11", features = ["ecdsa"] }
priority-queue = "1"
instant = "0.1"
rand = "0.8"
base64 = "0.13"
serde = { version = "1", features = ["derive"] }
serde_json = "1"
thiserror = "1"
tokio = { version = "1", features = ["sync", "time", "rt", "macros"] }
futures = "0.3"
async-broadcast = "0.4"
tracing = "0.1"
