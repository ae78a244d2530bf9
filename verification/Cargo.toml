[package]
name = "foreverdb"
version = "0.1.0"
edition = "2021"
publish = false

[dependencies]
crc32fast = "1"
xxhash-rust = { version = "0.8", features = ["xxh32"] }
clap = { version = "4", features = ["derive"] }
rand = "0.9"
tempfile = "3"
thiserror = "2"
