[package]
name = "ambient_engine"
version = "0.1.0"
edition = "2021"
publish = false

[dependencies]
blake3 = "1"
uuid = "1"
serde = { version = "1", features = ["derive"] }
thiserror = "2"
include_dir = "0.7"
