[package]
name = "mmkv_parser"
version = "0.1.0"
edition = "2021"
publish = false

[dependencies]
aes = "0.8"
cfb-mode = "0.8"
crc32fast = "1"
clap = { version = "4", features = ["derive"] }
