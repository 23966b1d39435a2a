[package]
name = "math_symbols"
version = "0.1.0"
edition = "2021"
publish = false

[dependencies]
ahash = "0.8"
lazy_static = "1"
serde = { version = "1", features = ["derive"] }
