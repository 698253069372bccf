[package]
name = "bnum"
version = "0.1.0"
edition = "2021"
publish = false

[dependencies]
rand = "*"
num-traits = "*"
num-integer = "*"
serde = { version = "*", features = ["derive"] }
