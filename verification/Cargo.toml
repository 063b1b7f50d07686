[package]
name = "garde"
version = "0.1.0"
edition = "2021"
publish = false

[dependencies]
compact_str = "*"
serde = { version = "1", features = ["derive"] }
