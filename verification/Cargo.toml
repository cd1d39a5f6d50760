[package]
name = "specmonkey"
version = "0.1.0"
edition = "2021"
publish = false

[dependencies]
linkify = "*"
url = "*"
jwalk = "*"
rayon = "*"
serde = { version = "*", features = ["derive"] }
serde_json = "*"
serde_yaml = "*"
clap = { version = "*", features = ["derive"] }
log = "*"
env_logger = "*"
