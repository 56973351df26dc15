[package]
name = "gitsync"
version = "0.3.3"
edition = "2021"
publish = false

[dependencies]
base64 = "=0.22.1"
chrono = "=0.4.45"
git2 = { version = "=0.20.4", default-features = false }
rusqlite = { version = "=0.41.1", features = ["bundled", "hooks"] }
serde = { version = "1", features = ["derive"] }
shellexpand = "=3.1.2"
similar = "=2.7.0"
tauri = { version = "2", default-features = false }
