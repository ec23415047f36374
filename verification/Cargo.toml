[package]
name = "corvex"
version = "0.1.0"
edition = "2021"
publish = false

[dependencies]
dirs = "*"
walkdir = "*"
tempfile = "*"
serde = { version = "*", features = ["derive"] }
