[package]
name = "cpm_rs"
version = "0.1.0"
edition = "2021"
publish = false

[dependencies]
regex = "*"
env_logger = "*"
