[package]
name = "clickhouse-dfe"
version = "0.1.0"
edition = "2021"
publish = false

[dependencies]
bytes = "1"
clickhouse = { version = "0.15", default-features = false }
serde = { version = "1", features = ["derive"] }
serde_json = "1"
thiserror = "2"
tokio = { version = "1", features = ["io-util", "rt", "sync"] }
tracing = "0.1"
