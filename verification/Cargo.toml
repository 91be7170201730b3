[package]
name = "media_relay"
version = "0.1.0"
edition = "2021"
publish = false

[dependencies]
base64 = "0.13"
axum = { version = "*", features = ["ws"] }
axum-server = { version = "*", features = ["tls-rustls"] }
futures = "*"
http = "*"
serde = { version = "*", features = ["derive"] }
serde_json = "*"
tokio = { version = "*", features = ["rt-multi-thread", "macros", "net"] }
tokio-tungstenite = "*"
tungstenite = "*"
