[package]
name = "dotbridge"
version = "0.1.0"
edition = "2021"
publish = false

[dependencies]
libloading = "0.8"
thiserror = "1"
tokio = { version = "1", features = ["rt", "rt-multi-thread"] }
