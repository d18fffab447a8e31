[package]
name = "unicache"
version = "0.1.0"
edition = "2021"
publish = false

[dependencies]
csv = "1"
histogram = "0.6"
indexmap = "*"
lazy_static = "1"
lfu_cache = "*"
lru = "*"
regex = "1"
serde = { version = "1", features = ["derive"] }
strum = "*"
strum_macros = "*"
