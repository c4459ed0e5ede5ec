[package]
name = "free"
version = "0.1.0"
edition = "2021"
publish = false

[dev-dependencies]
num = "0.4"
