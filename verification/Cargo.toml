[package]
name = "sharex_store"
version = "0.1.0"
edition = "2021"
publish = false

[dependencies]
rand = "0.8"
serde = { version = "1", features = ["derive"] }
serde_bytes = "0.11"
mongodb = "2"
tokio = { version = "1", features = ["macros", "rt-multi-thread"] }
warp = "0.3"
