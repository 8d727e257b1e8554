[package]
name = "archivum_core"
version = "0.1.0"
edition = "2021"
publish = false

[dependencies]
blake3 = "*"
roaring = "*"
uuid = { version = "*", features = ["v4", "serde"] }
anyhow = "*"
serde = { version = "*", features = ["derive"] }
serde_json = "*"
