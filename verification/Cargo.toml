[package]
name = "rehydrator"
version = "0.1.0"
edition = "2021"
publish = false

[dependencies]
coreos-stream-metadata = "*"
