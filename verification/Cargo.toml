[package]
name = "smelly-hooks"
version = "0.1.0"
edition = "2021"
publish = false

[dependencies]
anyhow = "=1.0.104"
clap = { version = "=4.6.7", features = ["derive"] }
colored = "=3.1.1"
env_logger = "=0.11.11"
ruzstd = "=0.9.1"
serde_json = "=1.0.154"
tar = "=0.4.46"
yash-syntax = "=0.13.0"
