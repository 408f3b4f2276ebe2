[package]
name = "cjp2p"
version = "0.1.0"
edition = "2021"
publish = false

[dependencies]
base64 = "0.22"
bitvec = "1"
chrono = "0.4"
rand = "0.8"
sha2 = "0.10"
serde = { version = "1", features = ["derive"] }
serde_json = "1"
log = "0.4"
env_logger = "0.11"
