[package]
name = "latios-lob"
version = "0.1.0"
edition = "2021"
publish = false

[dependencies]
ahash = "0.8"
bumpalo = "3"
clap = { version = "4", features = ["derive"] }
mimalloc = "0.1"
