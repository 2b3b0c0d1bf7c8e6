[package]
name = "ssher"
version = "0.1.0"
edition = "2021"
publish = false

[dependencies]
dirs = "5"
serde = { version = "1", features = ["derive"] }
serde_json = "1"
shellexpand = "3"
ssh2 = "0.9"
tauri = { version = "2", default-features = false }
uuid = { version = "1", features = ["v4"] }
