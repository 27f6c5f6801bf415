[package]
name = "mencius"
version = "0.1.0"
edition = "2021"
publish = false

[dependencies]
bytes = "1"
crc32fast = "1"
snap = "1"
zstd = "0.13"
thiserror = "1"
rand = "0.8"
