[package]
name = "pillar"
version = "0.1.0"
edition = "2021"
publish = false

[dependencies]
toml = "=1.1.6"
walkdir = "=2.5.0"
