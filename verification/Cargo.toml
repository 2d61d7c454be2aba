[package]
name = "handoff"
version = "0.1.0"
edition = "2021"
publish = false

[dependencies]
anyhow = "1"
futures = "0.3"

[dev-dependencies]
tempfile = "3"
