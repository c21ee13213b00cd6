[package]
name = "ruleset"
version = "0.1.0"
edition = "2021"
publish = false

[dependencies]
xxhash-rust = { version = "*", features = ["xxh3"] }
comfy-table = "*"
serde = { version = "1", features = ["derive"] }
