[package]
name = "session_normalizer"
version = "0.1.0"
edition = "2021"
publish = false

[dependencies]
chrono = "0.4"
color-eyre = "0.6"
serde_json = "1"
shlex = "1"
tempfile = "3"
tokio = { version = "1", features = ["rt"] }
tracing = "0.1"
