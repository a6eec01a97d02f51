[package]
name = "rfind"
version = "0.1.0"
edition = "2021"
publish = false

[dependencies]
ansi_term = "*"
async-std = "*"
clap = "*"
env_logger = "*"
futures = "*"
log = "*"
walkdir = "*"
