[package]
name = "hash_ops"
version = "0.1.0"
edition = "2021"
publish = false

[dependencies]
ahash = "*"
smallvec = "1"
arrow = "*"
futures = "0.3"
