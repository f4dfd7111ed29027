[package]
name = "async-wal-db"
version = "0.1.0"
edition = "2021"
publish = false

[dependencies]
bincode = "1.3"
crc32fast = "1.4"
crossbeam = "0.8"
heed = "0.20"
thiserror = "2.0"
tokio = { version = "1", features = ["full"] }

[dev-dependencies]
serde = "1.0"
