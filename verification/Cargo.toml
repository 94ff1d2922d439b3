[package]
name = "globalip_memo"
version = "0.1.0"
edition = "2021"
publish = false

[dependencies]
serde_json = "*"
regex = "*"
serde = { version = "*", features = ["derive"] }
reqwest = { version = "*", features = ["blocking"] }
log = "*"
env_logger = "*"
