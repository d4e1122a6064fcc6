[package]
name = "nori_wal"
version = "0.1.0"
edition = "2021"
publish = false

[dependencies]
crc32c = "0.6"
tokio = { version = "1", features = ["fs", "io-util", "sync", "time", "rt"] }
