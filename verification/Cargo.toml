[package]
name = "tyuo"
version = "0.0.1"
edition = "2021"
publish = false

[dependencies]
clap = "*"
dirs = "*"
env_logger = "*"
flate2 = "1"
fnv = "1"
log = "0.4"
rusqlite = { version = "*", features = ["bundled"] }
serde_json = "1"
