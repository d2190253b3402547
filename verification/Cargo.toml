[package]
name = "symmetri"
version = "0.1.0"
edition = "2021"
publish = false

[dependencies]
anyhow = "*"
chrono = "*"
clap = { version = "*", features = ["derive"] }
comfy-table = "*"
env_logger = "*"
log = "*"
