[package]
name = "relaisdesk"
version = "0.1.0"
edition = "2021"
publish = false

[dependencies]
base64 = "0.13"
sodiumoxide = "0.2"
serde = { version = "1", features = ["derive"] }
serde_json = "1"
lazy_static = "1"
