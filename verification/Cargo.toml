[package]
name = "uniqr"
version = "0.1.0"
edition = "2021"
publish = false

[dependencies]
ahash = "0.8"
sled = "0.34"
clap = { version = "4", features = ["derive"] }
