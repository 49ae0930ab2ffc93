[package]
name = "ota_yaml"
version = "0.1.0"
edition = "2021"
publish = false

[dependencies]
anyhow = "=1.0.104"
chrono = { version = "=0.4.45", features = ["serde"] }
colored = "=2.2.0"
directories = "=5.0.1"
futures = "=0.3.34"
futures-channel = "=0.3.34"
futures-util = "=0.3.34"
inquire = { version = "=0.7.5", features = ["editor"] }
serde = { version = "1", features = ["derive"] }
serde_json = "1"
serde_yaml = "=0.9.34"
tempfile = "=3.27.0"
tokio = { version = "=1.53.2", features = ["rt-multi-thread", "macros", "fs", "time", "sync"] }
tokio-tungstenite = "=0.24.0"
tracing = "0.1"
tracing-subscriber = "0.3"
