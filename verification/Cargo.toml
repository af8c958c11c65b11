[package]
name = "archive_ui"
version = "0.1.0"
edition = "2021"
publish = false

[dependencies]
keepawake = { version = "*", default-features = false }
serde = { version = "1", features = ["derive"] }
serde_json = "1"
