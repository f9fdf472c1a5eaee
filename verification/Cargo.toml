[package]
name = "aries_rust"
version = "0.1.0"
edition = "2021"
publish = false

[dependencies]
env_logger = "*"
log = "*"
uuid = { version = "*", features = ["v4"] }
