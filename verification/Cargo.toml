[package]
name = "nbtwire"
version = "0.1.0"
edition = "2021"
publish = false

[dependencies]
flate2 = "=1.1.10"
serde = { version = "=1.0.229", features = ["derive"] }
ahash = { version = "=0.8.12", features = ["serde"] }
tokio = { version = "=1.53.2", features = ["io-util"] }
async-trait = "=0.1.92"
