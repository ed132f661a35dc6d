[package]
name = "blake3_many"
version = "0.1.0"
edition = "2021"
publish = false

[dependencies]
arrayvec = { version = "0.7", default-features = false }
