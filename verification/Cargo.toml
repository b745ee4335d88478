[package]
name = "timelapse"
version = "0.1.0"
edition = "2021"
publish = false

[dependencies]
blake3 = { version = "=1.8.7", default-features = false, features = ["pure"] }
ulid = "=1.2.1"
zstd = "=0.13.3"
ignore = "0.4"
serde = { version = "=1.0.229", features = ["derive"] }
bincode = "=1.3.3"
sled = "=0.34.7"
memmap2 = "=0.9.12"
anyhow = "=1.0.104"

[dev-dependencies]
tempfile = "=3.27.0"
