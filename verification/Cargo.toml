[package]
name = "lease_pool"
version = "0.1.0"
edition = "2021"
publish = false

[dependencies]
axum = "*"
serde_json = "*"
tokio = { version = "*", features = ["macros", "rt-multi-thread", "net"] }
