[package]
name = "relaxed_memory_concurrency"
version = "0.1.0"
edition = "2021"
publish = false

[dependencies]
loom = "0.7"
