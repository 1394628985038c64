[package]
name = "arena_codec"
version = "0.1.0"
edition = "2021"
publish = false

[dependencies]
unty = "*"
bumpalo = { version = "*", features = ["collections"] }
