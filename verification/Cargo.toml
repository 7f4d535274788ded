[package]
name = "satsolver"
version = "0.1.0"
edition = "2021"
publish = false

[dependencies]
clap = { version = "4", features = ["derive"] }
env_logger = "0.11"
itertools = "0.14"
log = "0.4"
rand = "0.9"
serde_json = "1"
