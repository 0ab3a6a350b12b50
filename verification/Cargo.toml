[package]
name = "waldb"
version = "0.1.0"
edition = "2021"
publish = false

[dependencies]
crc = "1"
bytes = "1"
tokio = { version = "1", features = ["fs", "io-util", "rt", "sync"] }
futures = "0.3"
thiserror = "1"
