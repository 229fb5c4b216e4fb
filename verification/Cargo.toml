[package]
name = "crush"
version = "0.1.0"
edition = "2021"

[dependencies]
ahash = { version = "0.8", default-features = false }
lazy_static = "1.4"

[dev-dependencies]
rand = "0.8"
