[package]
name = "sigma_core"
version = "0.1.0"
edition = "2021"
publish = false

[dependencies]
xxhash-rust = { version = "0.8", features = ["xxh64"] }
smallvec = "1"
dashmap = "*"
once_cell = "1"
serde = { version = "1", features = ["derive"] }
thiserror = "*"

[dev-dependencies]
serde_json = "1"
