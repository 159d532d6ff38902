[package]
name = "iso_maker"
version = "0.1.0"
edition = "2021"
publish = false

[dependencies]
hadris-iso = "1"
serde = { version = "1", features = ["derive"] }
serde_json = "1"
tokio = { version = "1", features = ["full"] }
uuid = { version = "1", features = ["v4"] }
walkdir = "2"
