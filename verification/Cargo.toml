[package]
name = "propped_blockchain"
version = "0.1.0"
edition = "2021"
publish = false

[dependencies]
serde = { version = "1", features = ["derive"] }
serde_json = "1"
clap = "2.34"
log = "0.4"
env_logger = "0.10"
chrono = "0.4"
