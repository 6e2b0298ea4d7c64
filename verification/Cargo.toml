[package]
name = "act"
version = "0.1.0"
edition = "2021"
publish = false

[dependencies]
clap = "*"
csv = "*"
env_logger = "*"
log = "*"
serde = { version = "*", features = ["derive"] }
