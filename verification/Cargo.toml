[package]
name = "project_ares"
version = "0.1.0"
edition = "2021"
publish = false

[dependencies]
chrono = "=0.4.45"
pdf-extract = "=0.12.1"
regex-syntax = "0.8"
rusqlite = { version = "=0.41.1", features = ["bundled"] }
serde = { version = "=1.0.229", features = ["derive"] }
serde_json = "=1.0.154"
zip = { version = "=9.2.2", default-features = false, features = ["deflate"] }
