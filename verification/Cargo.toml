[package]
name = "isograph"
version = "0.1.0"
edition = "2021"
publish = false

[dependencies]
colored = "*"
serde = { version = "*", features = ["derive"] }
serde_json = "*"
