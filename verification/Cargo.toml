[package]
name = "kaspa_resolver"
version = "0.1.0"
edition = "2021"
publish = false

[dependencies]
xxhash-rust = { version = "=0.8.19", features = ["xxh3"] }
rand = "=0.8.8"
serde_json = "=1.0.154"
serde = { version = "=1.0.229", features = ["derive"] }
toml = "=0.8.23"
workflow-encryption = "=0.19.0"
tokio = { version = "=1.54.1", features = ["full"] }
axum = "=0.7.9"
clap = "=4.6.7"
dirs = "=5.0.1"
askama = "0.12"
chrono = "0.4"
cliclack = "*"
futures = "0.3"
mime = "0.3"
reqwest = { version = "0.12", default-features = false, features = ["rustls-tls"] }
thiserror = "1"
tower = { version = "0.4", features = ["buffer", "limit", "util"] }
tower-http = { version = "0.5", features = ["cors"] }
tracing-subscriber = "0.3"
uuid = { version = "1", features = ["v4"] }
workflow-core = "*"
workflow-log = "*"
