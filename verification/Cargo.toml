[package]
name = "serial_keel"
version = "0.1.0"
edition = "2021"
publish = false

[dependencies]
bytes = "1"
chrono = { version = "0.4", default-features = false, features = ["clock", "serde", "std"] }
serde = { version = "1", features = ["derive"] }
serde_json = "1"
ron = "0.8"
tokio = { version = "1", features = ["full"] }
tokio-util = { version = "0.7", features = ["codec"] }
tokio-stream = { version = "0.1", features = ["sync"] }
tokio-serial = { version = "5", default-features = false }
serialport = { version = "4", default-features = false }
futures = "0.3"
axum = { version = "0.6", features = ["ws"] }
tokio-tungstenite = "*"
tracing = "0.1"
tracing-subscriber = { version = "0.3", features = ["env-filter"] }
clap = { version = "4", features = ["derive"] }
color-eyre = "0.6"
thiserror = "1"
itertools = "*"
uuid = { version = "1", features = ["v4"] }
