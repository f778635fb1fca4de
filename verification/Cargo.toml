[package]
name = "room_relay"
version = "0.1.0"
edition = "2021"
publish = false

[dependencies]
anyhow = "=1.0.104"
axum = "=0.8.9"
chrono = { version = "=0.4.45", features = ["serde"] }
serde = { version = "=1.0.229", features = ["derive"] }
socketioxide = "=0.18.7"
tokio = { version = "=1.53.2", features = ["rt-multi-thread", "macros", "net"] }
tower = "=0.5.3"
tower-http = { version = "=0.7.1", features = ["cors"] }
tracing = "=0.1.44"
tracing-subscriber = "=0.3.23"
