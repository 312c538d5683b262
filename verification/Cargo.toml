[package]
name = "nqlite"
version = "0.1.0"
edition = "2021"
publish = false

[dependencies]
anyhow = "1"
crc32fast = "1"
fast-hnsw = "*"
postcard = { version = "1", features = ["alloc"] }
rmcp = { version = "*", features = ["transport-io"] }
serde = { version = "1", features = ["derive"] }
serde_json = "1"
thiserror = "*"
tokio = { version = "1", features = ["full"] }
