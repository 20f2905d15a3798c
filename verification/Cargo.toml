[package]
name = "broker"
version = "0.1.0"
edition = "2021"
publish = false

[dependencies]
base64 = "0.22"
tokio = { version = "1", features = ["rt-multi-thread", "net", "sync", "time", "signal", "io-util", "macros"] }
tracing = "0.1"
tracing-subscriber = { version = "0.3", features = ["env-filter"] }
