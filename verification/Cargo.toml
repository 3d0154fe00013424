[package]
name = "requote"
version = "0.1.0"
edition = "2021"
publish = false

[dependencies]
clap = { version = "4", features = ["derive"] }
env_logger = "0.11"
eyre = "0.6"
log = "0.4"
