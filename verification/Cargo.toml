[package]
name = "structural_tag"
version = "0.1.0"
edition = "2021"
publish = false

[dependencies]
serde_json = { version = "=1.0.154", features = ["preserve_order"] }
