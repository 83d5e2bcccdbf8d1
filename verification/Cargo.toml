[package]
name = "dedup"
version = "0.1.0"
edition = "2021"
publish = false

[dependencies]
anyhow = "1"
clap = { version = "3", features = ["derive"] }
clap-verbosity-flag = "1"
env_logger = "0.9"
log = "0.4"
odht = "0.3"

[dev-dependencies]
rand = "0.8"
