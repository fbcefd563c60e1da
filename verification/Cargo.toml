[package]
name = "rtt_tdigest"
version = "0.1.0"
edition = "2021"
publish = false

[dependencies]
anyhow = "*"
aws-config = "*"
aws-sdk-dynamodb = "*"
axum = "*"
chrono = "*"
env_logger = "*"
log = "*"
serde = { version = "*", features = ["derive"] }
serde_json = "*"
tokio = { version = "*", features = ["full"] }
