[package]
name = "http_core"
version = "0.1.0"
edition = "2021"
publish = false

[dependencies]
itertools = "0.12"

[dev-dependencies]
nom = "7.1"
