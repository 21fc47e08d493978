[package]
name = "snarkos-node-bft"
version = "0.1.0"
edition = "2021"
publish = false

[dependencies]
sha2 = "0.10"
indexmap = "2"
time = "0.3"
anyhow = "1"
tokio = { version = "1", features = ["sync", "rt", "time", "macros"] }
serde = { version = "1", features = ["derive"] }
serde_json = "1"
bincode = "1"
reqwest = { version = "0.12", default-features = false, features = ["rustls-tls"] }
rand = "0.8"
parking_lot = "0.12"
tracing = "0.1"
aleo-std = { version = "*", default-features = false, features = ["storage"] }
clap = "2"
