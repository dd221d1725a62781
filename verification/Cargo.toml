[package]
name = "coseva"
version = "0.1.0"
edition = "2021"
publish = false

[dependencies]
xxhash-rust = { version = "0.8", features = ["xxh3"] }
fast-float2 = "0.2"
compact_str = "*"
serde = { version = "1", features = ["derive"] }
