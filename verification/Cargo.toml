[package]
name = "byst"
version = "0.1.0"
edition = "2021"
publish = false

[dependencies]
murmur3 = "0.5"
tokio = { version = "1", features = ["sync", "time", "rt"] }
notify = "6"
