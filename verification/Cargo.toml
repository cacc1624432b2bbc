[package]
name = "gpu_cache"
version = "0.1.0"
edition = "2021"
publish = false

[dependencies]
fnv = "1"
linked-hash-map = "0.5"

[dev-dependencies]
ordered-float = "0.5"
