[package]
name = "tackweld"
version = "0.1.0"
edition = "2021"
publish = false

[dependencies]
globset = { version = "0.4", default-features = false }
walkdir = "2"
