[package]
name = "miniredis"
version = "0.1.0"
edition = "2021"
publish = false

[dependencies]
crc = "3"
bincode = "1"
serde = "1"
