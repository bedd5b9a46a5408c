[package]
name = "dedup-core"
version = "0.1.0"
edition = "2021"
publish = false

[dependencies]
blake3 = "1"
xxhash-rust = { version = "0.8", features = ["xxh3"] }
strsim = "0.11"
walkdir = "2"
rusqlite = { version = "*", features = ["bundled"] }
image = { version = "0.25", default-features = false, features = ["png", "jpeg", "gif", "bmp", "webp", "ico"] }
lofty = "*"
trash = "*"
rayon = "1"
crossbeam-channel = "0.5"
serde = { version = "1", features = ["derive"] }
serde_json = "1"
