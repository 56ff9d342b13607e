[package]
name = "coedit"
version = "0.1.0"
edition = "2021"
publish = false

[dependencies]
rand = "*"
uuid = { version = "*", features = ["v4"] }
anyhow = "*"
serde = { version = "*", features = ["derive"] }
bincode = "1"
rmp-serde = "*"
tokio = { version = "*", features = ["full"] }
tokio-tungstenite = "*"
futures = "*"
