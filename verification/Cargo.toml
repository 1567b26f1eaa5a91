[package]
name = "respkv"
version = "0.1.0"
edition = "2021"
publish = false

[dependencies]
anyhow = "1"
tokio = { version = "1", default-features = false, features = ["rt-multi-thread", "net", "io-util", "macros"] }
