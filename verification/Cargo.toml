[package]
name = "spritist"
version = "0.1.0"
edition = "2021"
publish = false

[dependencies]
bytes = "1"
image = { version = "0.25", default-features = false, features = ["png", "bmp", "gif"] }
serde = { version = "1", features = ["derive"] }
http = "1"
tauri = { version = "2", default-features = false }
rfd = "*"
arboard = "*"
