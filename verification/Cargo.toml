[package]
name = "bocik"
version = "0.1.0"
edition = "2021"
publish = false

[dependencies]
solana-sdk = "=2.3.1"
spl-memo = "=6.0.0"
bincode = "=1.3.3"
fastrand = "=2.5.0"
serde = { version = "=1.0.229", features = ["derive"] }
serde_json = "=1.0.154"
toml = "=0.8.23"
anyhow = "=1.0.104"
tracing = "=0.1.44"
tracing-subscriber = { version = "=0.3.23", features = ["env-filter"] }
tokio = { version = "=1.54.1", features = ["full"] }
parking_lot = "=0.12.5"
futures-util = "=0.3.34"

[dev-dependencies]
regex = "=1.13.1"
