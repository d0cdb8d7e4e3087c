[package]
name = "sorex"
version = "0.1.0"
edition = "2021"
publish = false

[dependencies]
crc32fast = "1"
clap = { version = "4", features = ["derive"] }
atty = "0.2"
brotli = "*"
