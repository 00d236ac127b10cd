[package]
name = "clefd"
version = "0.1.0"
edition = "2021"
publish = false

[dependencies]
anyhow = "=1.0.104"
clap = { version = "=4.6.7", features = ["derive"] }
dirs = "=7.0.0"
env_logger = "=0.11.11"
log = "=0.4.34"
notify = "=8.2.0"
signal-hook = "=0.4.5"
