[package]
name = "umbral_patcher"
version = "0.1.0"
edition = "2021"
publish = false

[dependencies]
byteorder = "1"
crc = "3"
smallvec = "1"
clap = { version = "4", features = ["derive"] }
