[package]
name = "terracotta_server"
version = "0.1.0"
edition = "2021"
publish = false

[dependencies]
serde_json = "1"
rand = "0.8"
hex = "0.4"
serde = { version = "1", features = ["derive"] }
toml = "0.8"
clap = { version = "4", features = ["derive"] }
ctrlc = "3"
env_logger = "0.11"
log = "0.4"
socket2 = "0.5"
chrono = "0.4"
sevenz-rust2 = "*"
