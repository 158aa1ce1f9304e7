[package]
name = "room_relay"
version = "0.1.0"
edition = "2021"
publish = false

[dependencies]
axum = "*"
dashmap = "*"
serde = { version = "*", features = ["derive"] }
tokio = { version = "*", features = ["full"] }
tokio-stream = "*"
tower-http = { version = "*", features = ["trace"] }
tracing = "*"
