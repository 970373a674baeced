[package]
name = "alba_core"
version = "0.1.0"
edition = "2021"
publish = false

[dependencies]
base64 = "0.22"
lazy_static = "1"
serde = { version = "1", features = ["derive"] }
tokio = { version = "1", features = ["macros", "rt", "rt-multi-thread", "sync", "time"] }
