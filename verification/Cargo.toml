[package]
name = "smart_manager_core"
version = "0.1.0"
edition = "2021"
publish = false

[dependencies]
comfy-table = "7"
serde = { version = "1", features = ["derive"] }
serde_json = "1"
