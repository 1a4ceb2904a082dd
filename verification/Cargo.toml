[package]
name = "equiforge"
version = "1.0.6"
edition = "2021"
publish = false

[dependencies]
sha2 = "0.10"
blake3 = "1"
ed25519-dalek = { version = "2", features = ["rand_core"] }
hex = "0.4"
bincode = "1"
serde = { version = "1", features = ["derive"] }
serde_json = "1"
sled = "0.34"
tokio = { version = "1", features = ["full"] }
clap = { version = "4", features = ["derive"] }
tracing = "0.1"
tracing-subscriber = "0.3"
ctrlc = "3"
num_cpus = "1"
flate2 = "1"
rand = "0.8"
