[package]
name = "since_when"
version = "0.1.0"
edition = "2021"
publish = false

[dependencies]
chrono = "0.4"
env_logger = "0.10"
iced = { version = "0.9", default-features = false, features = ["glow"] }
log = "0.4"
num-traits = "0.2"
rusqlite = { version = "0.29", features = ["bundled"] }
