[package]
name = "masterstat"
version = "0.1.0"
edition = "2021"
publish = false

[dependencies]
anyhow = "*"
futures = "*"
tokio = { version = "*", features = ["rt", "rt-multi-thread", "sync", "macros"] }
