[package]
name = "flap"
version = "0.1.0"
edition = "2021"
publish = false

[dependencies]
serde = { version = "=1.0.229", features = ["derive"] }
toml = "=1.1.8"
colored = "=3.1.1"
self_update = { version = "=0.44.0", features = ["archive-tar", "archive-zip", "compression-flate2", "compression-zip-deflate"] }
reqwest = { version = "=0.13.5", default-features = false }
anyhow = "1"
winreg = "*"
