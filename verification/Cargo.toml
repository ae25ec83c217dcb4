[package]
name = "kvs"
version = "0.1.0"
edition = "2021"
publish = false

[dependencies]
sled = "0.34"
rayon = "1"
flate2 = "1"
clap = { version = "4", features = ["derive"] }
log = "0.4"
env_logger = "0.11"
serde = { version = "1", features = ["derive"] }
serde_json = "1"

[dev-dependencies]
tempfile = "3"
