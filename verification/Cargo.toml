[package]
name = "mvcc-rs"
version = "0.1.0"
edition = "2021"
publish = false

[dependencies]
base64 = "0.21"
crossbeam-skiplist = "0.1"
parking_lot = "0.12"
serde = { version = "1", features = ["derive"] }
serde_json = "1"
tokio = { version = "1", features = ["rt", "rt-multi-thread"] }
tracing = "0.1"
tracing-subscriber = "0.3"
