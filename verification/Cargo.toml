[package]
name = "chain_events"
version = "0.1.0"
edition = "2021"
publish = false

[dependencies]
parity-scale-codec = { version = "*", features = ["derive"] }
hex = "*"
log = "*"
env_logger = "*"
substrate-api-client = { version = "=0.6.6", default-features = false }
