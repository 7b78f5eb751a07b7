[package]
name = "image_cache"
version = "0.1.0"
edition = "2021"
publish = false

[dependencies]
tokio = { version = "*", features = ["sync", "rt-multi-thread", "fs"] }
image = "*"
webp = "*"

[dev-dependencies]
base64 = "*"
serde = "*"
serde_qs = "*"
