[package]
name = "hashline_tools"
version = "0.1.0"
edition = "2021"
publish = false

[dependencies]
clap = { version = "*", features = ["derive"] }
serde = { version = "*", features = ["derive"] }
serde_json = "*"
similar = "*"
twox-hash = "*"
xxhash-rust = { version = "*", features = ["xxh32", "xxh64"] }
