[package]
name = "termalm"
version = "0.1.0"
edition = "2021"
publish = false

[dependencies]
uuid = { version = "1", features = ["v4"] }
serde = { version = "1", features = ["derive"] }
thiserror = "1"
anyhow = "1"
rusqlite = { version = "0.31", features = ["bundled"] }
dirs = "5"
portable-pty = "0.8"
