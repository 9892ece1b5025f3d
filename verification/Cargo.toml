[package]
name = "mailconf"
version = "0.1.0"
edition = "2021"
publish = false

[dependencies]
ahash = "0.8"
rustls = "0.21"
tokio = { version = "1", features = ["net"] }
