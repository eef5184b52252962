[package]
name = "web_stream"
version = "0.1.0"
edition = "2021"
publish = false

[dependencies]
bytes = "1"
futures = "0.3"
reqwest = { version = "0.12", default-features = false, features = ["stream"] }
serde_json = "1"
tracing = "0.1"
