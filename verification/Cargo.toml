[package]
name = "garupa"
version = "0.1.0"
edition = "2021"
publish = false

[dependencies]
aes = "0.8"
cbc = { version = "0.1", features = ["block-padding", "alloc"] }
base64 = "0.22"
serde_json = "1"
thiserror = "2"
axum = "0.8"
