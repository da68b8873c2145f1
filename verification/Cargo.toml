[package]
name = "cb_core"
version = "0.1.0"
edition = "2021"
publish = false

[dependencies]
rusqlite = { version = "*", features = ["bundled"] }
serde = { version = "*", features = ["derive"] }
serde_json = "*"
