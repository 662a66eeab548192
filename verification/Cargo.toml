[package]
name = "timewise_deque"
version = "0.1.0"
edition = "2021"
publish = false

[dev-dependencies]
datetime = "*"
