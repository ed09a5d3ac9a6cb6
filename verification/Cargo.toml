[package]
name = "clawstore"
version = "0.1.0"
edition = "2021"
publish = false

[dependencies]
crc32c = "*"
parking_lot = "*"
libc = "*"
winapi = { version = "*", features = ["fileapi"] }
