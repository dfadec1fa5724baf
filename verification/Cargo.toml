[package]
name = "minimint_bridge"
version = "0.1.0"
edition = "2021"
publish = false

[dependencies]
anyhow = "1"
bitcoin = "=0.29.2"
futures = "0.3"
lazy_static = "1"
lightning-invoice = "=0.21.0"
serde = { version = "1", features = ["derive"] }
serde_json = "1"
sled = "=0.34.7"
tokio = { version = "1", features = ["rt-multi-thread", "sync", "macros", "time"] }
tracing = "0.1"
tracing-subscriber = "0.3"
url = "2"
