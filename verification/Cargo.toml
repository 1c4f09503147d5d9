[package]
name = "test_site"
version = "0.1.0"
edition = "2021"
publish = false

[dependencies]
bumpalo = { version = "3", features = ["collections"] }
lru = "*"
swift-check = "*"
num_cpus = "1"
tokio = { version = "1", features = ["net", "io-util", "fs", "rt-multi-thread"] }
tracing = "0.1"
tracing-subscriber = "0.3"
