[package]
name = "kadmium"
version = "0.6.0"
edition = "2021"
publish = false

[dependencies]
rand = "0.8"
time = "0.3"
bytes = { version = "1", features = ["serde"] }
bincode = { version = "2", features = ["derive", "serde"] }
parking_lot = "0.12"
tokio = { version = "1", features = ["rt", "time"] }
tokio-util = { version = "0.7", features = ["codec"] }
