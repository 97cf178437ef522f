[package]
name = "cracking"
version = "0.1.0"
edition = "2021"
publish = false

[dependencies]
bit-vec = "0.5"
rand = "0.5"
time = "0.1"
csv = "1"
serde = { version = "1", features = ["derive"] }
