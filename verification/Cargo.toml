[package]
name = "agz"
version = "1.0.0"
edition = "2021"
publish = false

[dependencies]
rayon = "1"
walkdir = "2"
zstd = "0.13"
