[package]
name = "http_server"
version = "0.1.0"
edition = "2021"
publish = false

[dependencies]
anyhow = "1"
flate2 = "1"
tokio = { version = "1", features = ["rt", "rt-multi-thread", "macros"] }
