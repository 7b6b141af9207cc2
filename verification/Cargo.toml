[package]
name = "proxy_bypass"
version = "0.1.0"
edition = "2021"
publish = false

[dependencies]
log = "0.4"
regex-lite = "0.1"
serde = { version = "1", features = ["derive"] }
tauri = { version = "2", default-features = false }
url = "2"
