[package]
name = "streaming_platform"
version = "0.1.0"
edition = "2021"
publish = false

[dependencies]
siphasher = "*"
uuid = { version = "*", features = ["v4"] }
tokio = { version = "*", features = ["full"] }
serde = { version = "*", features = ["derive"] }
serde_json = "*"
log = "*"
env_logger = "*"
toml = "*"
random = "*"
