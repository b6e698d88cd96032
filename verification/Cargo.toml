[package]
name = "memory_viewer"
version = "0.1.0"
edition = "2021"
publish = false

[dependencies]
comrak = { version = "=0.52.0", default-features = false }
serde_json = "=1.0.154"
tiny_http = "=0.12.0"
