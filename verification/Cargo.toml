[package]
name = "rate_limiter"
version = "0.1.0"
edition = "2021"
publish = false

[dependencies]
async-trait = "0.1"
axum = "0.6"
axum-client-ip = "0.4"
redis = { version = "0.23", features = ["aio", "tokio-comp"] }
tokio = { version = "1", features = ["full"] }
