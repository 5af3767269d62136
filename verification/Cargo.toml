[package]
name = "rust_blockchain"
version = "0.1.0"
edition = "2021"
publish = false

[dependencies]
chrono = "0.4"
sha3 = "0.10"
serde = { version = "1", features = ["derive"] }
serde_json = "1"
tokio = { version = "1", features = ["full"] }
tokio-tungstenite = "*"
futures-util = "0.3"
uuid = { version = "1", features = ["v4"] }
