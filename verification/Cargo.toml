[package]
name = "tarn"
version = "0.1.0"
edition = "2021"
publish = false

[dependencies]
regex = "=1.13.1"
regex-syntax = "=0.8.11"
serde = { version = "=1.0.229", features = ["derive"] }
serde_json = "=1.0.154"
yaml_serde = "=0.10.7"
clap = { version = "=4.6.7", features = ["derive"] }
base64 = "=0.23.1"
thiserror = "=2.0.21"
anyhow = "1"
async-stream = "*"
axum = "*"
chrono = "*"
dirs = "*"
futures-core = "*"
notify = "*"
rmcp = { version = "*", features = ["server", "macros", "transport-io", "transport-streamable-http-server"] }
schemars = "*"
tokio = { version = "1", features = ["full"] }
tokio-stream = "*"
tokio-util = "*"
tracing = "*"
tracing-subscriber = { version = "*", features = ["env-filter"] }
