[package]
name = "george"
version = "0.1.0"
edition = "2021"
publish = false

[dependencies]
anyhow = "1"
chrono = "0.4"
clap = { version = "4", features = ["derive"] }
env_logger = "*"
log = "0.4"
path-absolutize = "3"
serde = { version = "1", features = ["derive"] }
shellexpand = "*"
toml = "*"
walkdir = "2"
