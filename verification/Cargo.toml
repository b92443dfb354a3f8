[package]
name = "alpenglow_mini"
version = "0.1.0"
edition = "2021"
publish = false

[dependencies]
sha2 = "0.10"
bincode = "1.3"
serde = { version = "1", features = ["derive"] }
bls-signatures = "0.15"
rand = "0.8"
reed-solomon-erasure = "6"
tokio = { version = "1", features = ["full"] }
anyhow = "1"
log = "0.4"
env_logger = "0.11"
hex = "0.4"
