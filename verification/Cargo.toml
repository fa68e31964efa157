[package]
name = "lox"
version = "0.1.0"
edition = "2021"
publish = false

[dependencies]
anyhow = "1"
thiserror = "1"
tracing = "0.1"
tracing-flame = "0.2"
tracing-subscriber = "0.3"
