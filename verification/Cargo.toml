[package]
name = "dream_egg"
version = "0.1.0"
edition = "2021"
publish = false

[dependencies]
egg = "0.9"
clap = { version = "3", features = ["derive"] }
serde_json = "1"
chrono = "0.4"
env_logger = "0.9"
log = "0.4"
