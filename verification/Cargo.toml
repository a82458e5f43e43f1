[package]
name = "dominus"
version = "0.1.0"
edition = "2021"
publish = false

[dependencies]
ahash = { version = "0.8", default-features = false, features = ["std"] }
parking_lot = "0.12"
anyhow = "1"

[dev-dependencies]
rand = "0.8"
