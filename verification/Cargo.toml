[package]
name = "thumbor"
version = "0.1.0"
edition = "2021"
publish = false

[dependencies]
anyhow = "1"
axum = "0.8"
base64 = "0.22"
bytes = "1"
image = { version = "0.25", default-features = false, features = ["png", "jpeg"] }
percent-encoding = "2"
reqwest = { version = "0.12", default-features = false }
serde = { version = "1", features = ["derive"] }
tokio = { version = "1", features = ["rt-multi-thread", "macros", "net"] }
tower-http = { version = "0.6", features = ["trace"] }
tracing = "0.1"
tracing-subscriber = "0.3"
