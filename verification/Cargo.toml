[package]
name = "virtual_view"
version = "0.1.0"
edition = "2021"
publish = false

[dependencies]
fnv = "1.0"
messenger = "*"
serde = { version = "1.0", features = ["derive"] }
serde_json = "1.0"
