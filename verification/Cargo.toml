[package]
name = "elem"
version = "0.1.0"
edition = "2021"
publish = false

[dependencies]
cpal = "*"
cxx = "*"
env_logger = "*"
futures-util = "*"
log = "*"
serde = { version = "1", features = ["derive"] }
serde_json = "1"
tokio = { version = "1", features = ["full"] }
tokio-tungstenite = "*"
