[package]
name = "btclib"
version = "0.1.0"
edition = "2021"
publish = false

[dependencies]
sha2 = "0.10"
k256 = { version = "0.13", features = ["ecdsa"] }
rand_core = { version = "0.6", features = ["getrandom"] }
uuid = { version = "1", features = ["v4", "serde"] }
chrono = { version = "0.4", features = ["serde"] }
ciborium = "0.2"
serde = { version = "1", features = ["derive"] }
hex = "0.4"
thiserror = "1"
anyhow = "1"
tokio = { version = "1", features = ["full"] }
clap = { version = "4", features = ["derive"] }
argh = "0.1"
dashmap = "5"
toml = "0.8"

[dev-dependencies]
tempfile = "3"
