[package]
name = "gitmelt"
version = "0.1.0"
edition = "2021"
publish = false

[dependencies]
anyhow = "*"
clap = { version = "*", features = ["derive"] }
content_inspector = "*"
crossbeam = "*"
crossbeam-channel = "*"
env_logger = "*"
ignore = "*"
log = "*"
rayon = "*"
tempfile = "*"
tiktoken-rs = "*"
