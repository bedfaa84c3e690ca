[package]
name = "sanity_gc"
version = "0.1.0"
edition = "2021"
publish = false

[dependencies]
anyhow = "1"
atomic = "*"
libc = "0.2"
prost = { version = "*", default-features = false, features = ["std"] }
zstd = "*"
