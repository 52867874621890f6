[package]
name = "rust_life"
version = "0.1.0"
edition = "2021"
publish = false

[dependencies]
csv = "=1.4.0"
regex = "=1.13.1"
serde = { version = "=1.0.229", features = ["derive"] }
serde_json = "=1.0.154"
polonius-engine = "=0.7.0"
log = "=0.4.34"
env_logger = "=0.11.11"
