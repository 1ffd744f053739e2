[package]
name = "stickymd"
version = "0.1.0"
edition = "2021"
publish = false

[dependencies]
anyhow = "1"
tauri = { version = "2", default-features = false, features = ["wry"] }
tauri-plugin-log = "2"
uuid = { version = "1", features = ["v4"] }
objc2-foundation = "0.3"
