[package]
name = "crs"
version = "0.1.0"
edition = "2021"
publish = false

[dependencies]
jieba-rs = "*"
ring = "*"
serde = { version = "*", features = ["derive"] }
serde_json = "*"
serde_yaml = "*"
csv = "*"
leveldb = "*"
