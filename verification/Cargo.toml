[package]
name = "remote_cache"
version = "0.1.0"
edition = "2021"
publish = false

[dependencies]
reqwest = { version = "*", default-features = false }
tokio = { version = "*", features = ["rt", "rt-multi-thread", "macros", "fs", "io-util", "sync"] }

[dev-dependencies]
base64 = "*"
