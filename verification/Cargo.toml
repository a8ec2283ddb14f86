[package]
name = "bifrons"
version = "0.1.0"
edition = "2021"
publish = false

[dependencies]
indexmap = "1.9"
rand = "0.8"
serde = { version = "1", features = ["derive"] }
ron = "0.8"
