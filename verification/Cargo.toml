[package]
name = "keta"
version = "0.1.0"
edition = "2021"
publish = false

[dependencies]
sled = "0.34"
chrono = "0.4"
serde = { version = "1", features = ["derive"] }
serde_json = "1"
