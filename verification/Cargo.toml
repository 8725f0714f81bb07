[package]
name = "ethera_sidecar"
version = "0.1.0"
edition = "2021"
publish = false

[dependencies]
alloy = { version = "=1.8.3", default-features = false, features = ["consensus", "k256", "rlp", "std", "sol-types", "signer-local", "network", "rpc-types-eth"] }
sha2 = "=0.10.9"
hex = "=0.4.3"
clap = { version = "=4.6.7", features = ["derive", "env"] }
serde = { version = "=1.0.229", features = ["derive"] }
serde_json = "=1.0.154"
tokio = { version = "=1.54.1", features = ["rt-multi-thread", "macros", "net", "signal", "sync", "time"] }
axum = "=0.8.9"
tracing = "=0.1.44"
anyhow = "=1.0.104"
prometheus-client = "=0.25.2"
