[package]
name = "netquality"
version = "0.1.0"
edition = "2021"
publish = false

[dependencies]
accept-header = "*"
axum = "*"
clap = { version = "*", features = ["derive"] }
hickory-resolver = "*"
humantime-serde = "*"
mime = "*"
rand = "*"
reqwest = { version = "*", default-features = false, features = ["stream"] }
serde = { version = "*", features = ["derive"] }
serde_json = "*"
surge-ping = "*"
tokio = { version = "*", features = ["rt-multi-thread", "macros", "net", "time", "sync"] }
tokio-stream = "*"
toml = "*"
url = "*"
