[package]
name = "generalized_map"
version = "0.1.0"
edition = "2021"
publish = false

[dependencies]
downcast-rs = "*"
serde = { version = "1", features = ["derive"] }
serde_json = "1"
