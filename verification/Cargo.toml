[package]
name = "whisper"
version = "0.1.0"
edition = "2021"
publish = false

[dependencies]
byteorder = "1"
libc = "0.2"
lru-cache = "0.1"
memmap = "0.7"
time = "0.1"
