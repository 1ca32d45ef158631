[package]
name = "collab_relay"
version = "0.1.0"
edition = "2021"
publish = false

[dependencies]
tokio = { version = "*", features = ["rt-multi-thread", "macros", "net"] }
tokio-tungstenite = "*"
futures-channel = "*"
futures-util = "*"

[dev-dependencies]
serde_json = "*"
