[package]
name = "notura_core"
version = "0.1.0"
edition = "2021"
publish = false

[dependencies]
base64 = "0.21"
chrono = "0.4"
serde_json = "1"
uuid = { version = "1", features = ["v4"] }
