[package]
name = "clipsync"
version = "0.1.0"
edition = "2021"
publish = false

[dependencies]
aes-gcm = "*"
argon2 = "*"
base64 = "*"
rand = "*"
uuid = { version = "*", features = ["v4"] }
tokio = { version = "*", features = ["rt-multi-thread", "macros", "time", "sync", "net"] }
tokio-tungstenite = "*"
futures-util = "*"
url = "*"
sqlx = { version = "*", features = ["runtime-tokio", "sqlite"], default-features = false }
chrono = "*"
