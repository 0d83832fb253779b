[package]
name = "thunders"
version = "0.1.0"
edition = "2021"
publish = false

[dependencies]
tokio = { version = "*", features = ["rt-multi-thread", "net", "sync", "time", "macros"] }
tokio-tungstenite = "*"
futures = "*"
async-channel = "*"
uuid = { version = "*", features = ["v4"] }
log = "*"
serde = { version = "*", features = ["derive"] }
serde_json = "*"
