[package]
name = "photo_core"
version = "0.1.0"
edition = "2021"
publish = false

[dependencies]
anyhow = "*"
base64 = "*"
image = "*"
kamadak-exif = "*"
serde = { version = "*", features = ["derive"] }
serde_json = "*"
