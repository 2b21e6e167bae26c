[package]
name = "gameserver"
version = "0.1.0"
edition = "2021"
publish = false

[dependencies]
fastrand = "2"
tokio = { version = "*", features = ["full"] }
tokio-tungstenite = "*"
futures-util = "*"
axum = { version = "*", features = ["multipart"] }
tower-http = { version = "*", features = ["cors", "fs"] }
reqwest = { version = "*", default-features = false, features = ["json"] }
serde_json = "*"
uuid = { version = "*", features = ["v4"] }
