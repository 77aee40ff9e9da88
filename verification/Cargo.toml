[package]
name = "keymap_optimization"
version = "0.1.0"
edition = "2021"
publish = false

[dependencies]
queues = "1.1.0"
rand = "0.8"
serde = { version = "1", features = ["derive"] }
serde_json = "1"
