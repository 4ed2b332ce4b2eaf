[package]
name = "remarkable"
version = "0.1.0"
edition = "2021"
publish = false

[dependencies]
serde_json = "=1.0.154"
libc = "0.2"
