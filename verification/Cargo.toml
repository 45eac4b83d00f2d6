[package]
name = "camera_portal"
version = "0.1.0"
edition = "2021"
publish = false

[dependencies]
roxmltree = "0.20"
serde_json = "1"
tiny_http = "0.12"
rust-embed = "8"
