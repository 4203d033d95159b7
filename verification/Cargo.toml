[package]
name = "dsh-desktop"
version = "0.1.0"
edition = "2021"
publish = false

[dependencies]
dirs = "6"
libc = "0.2"
log = "0.4"
serde = { version = "1", features = ["derive"] }
serde_json = "1"
tauri = { version = "2", default-features = false, features = ["wry"] }
tauri-plugin-log = "2"
url = "2"
