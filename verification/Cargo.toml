[package]
name = "cddb"
version = "0.1.0"
edition = "2021"
publish = false

[dependencies]
ahash = "=0.8.12"
memmap2 = "=0.9.12"
sha2 = "=0.10.9"
serde = "1"
bincode = "1"
tokio = { version = "1", default-features = false, features = ["rt"] }
