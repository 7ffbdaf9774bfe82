[package]
name = "rowkv"
version = "0.1.0"
edition = "2021"
publish = false

[dependencies]
bytes = "1"
crc32fast = "1"
thiserror = "2"
