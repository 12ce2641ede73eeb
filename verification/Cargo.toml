[package]
name = "mini_redis"
version = "0.1.0"
edition = "2021"
publish = false

[dependencies]
atoi = "2"
bytes = "1"
tokio = { version = "1", features = ["full"] }
tokio-stream = { version = "0.1", features = ["sync"] }
tracing = "0.1"
