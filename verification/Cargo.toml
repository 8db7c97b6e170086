[package]
name = "webdis"
version = "0.1.0"
edition = "2021"
publish = false

[dependencies]
ipnet = "2"
axum = { version = "0.7", features = ["ws"] }
tokio = { version = "1", features = ["full"] }
serde = { version = "1", features = ["derive"] }
serde_json = "1"
deadpool-redis = "0.14"
futures = "0.3"
async-stream = "0.3"
clap = { version = "4", features = ["derive"] }
daemonize = "0.5"
nix = { version = "0.29", features = ["user"] }
tracing = "0.1"
tracing-appender = "0.2"
tracing-subscriber = "0.3"
