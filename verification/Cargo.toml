[package]
name = "raincloud_db"
version = "0.1.0"
edition = "2021"
publish = false

[dependencies]
linked-hash-map = "0.5"
serde = { version = "1", features = ["derive"] }
serde_json = "1"
