[package]
name = "pb_to_json"
version = "0.1.0"
edition = "2021"
publish = false

[dependencies]
serde_json = "*"
