[package]
name = "multiping"
version = "0.1.0"
edition = "2021"
publish = false

[dependencies]
log = "*"
env_logger = "*"
clap = "*"

[dev-dependencies]
serde_json = "*"
