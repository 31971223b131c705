[package]
name = "pdc"
version = "0.1.0"
edition = "2021"
publish = false

[dependencies]
anyhow = "1"
blake3 = "1"
chrono = "0.4"
dashmap = "6"
hex = "0.4"
lru = "0.12"
mimalloc = "0.1"
parking_lot = "0.12"
rand = "0.8"
reqwest = { version = "0.12", default-features = false }
rusqlite = { version = "0.32", features = ["bundled"] }
rustc-hash = "2"
serde_bencode = "0.2"
serde_yaml = "0.9"
sha1 = "0.10"
socket2 = "0.5"
sysinfo = "0.32"
tokio = { version = "1", features = ["full"] }
tracing = "0.1"
tracing-subscriber = { version = "0.3", features = ["env-filter"] }
url = "2"
