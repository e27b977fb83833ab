[package]
name = "cliplapse"
version = "0.1.0"
edition = "2021"
publish = false

[dependencies]
anyhow = "=1.0.104"
chrono = "=0.4.45"
chrono-tz = "=0.10.4"
glob = "=0.3.4"
image = { version = "=0.25.10", default-features = false, features = ["jpeg", "png", "bmp"] }
serde = { version = "=1.0.229", features = ["derive"] }
serde_json = "=1.0.154"
tauri = { version = "2", default-features = false }
