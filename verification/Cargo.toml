[package]
name = "openai_hub"
version = "0.1.0"
edition = "2021"
publish = false

[dependencies]
base64 = "*"
hmac = "*"
sha2 = "*"
rand = "*"
tiktoken-rs = "*"
serde = { version = "*", features = ["derive"] }
serde_json = "*"
toml = "*"
regex = "*"
axum = "*"
tokio = { version = "*", features = ["full"] }
tokio-util = { version = "*", features = ["io"] }
tokio-stream = "*"
futures = "*"
reqwest = { version = "*", default-features = false, features = ["stream"] }
sync_wrapper = "*"
parking_lot = "*"
pin-project = "*"
thiserror = "*"
clap = { version = "*", features = ["derive"] }
chrono = "*"
tracing = "*"
tracing-subscriber = { version = "*", features = ["env-filter"] }
