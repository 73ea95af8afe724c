[package]
name = "compressed_dir"
version = "0.1.0"
edition = "2021"
publish = false

[dependencies]
flate2 = "1"
tar = "0.4"
libc = "0.2"
fuser = "*"
log = "0.4"
env_logger = "*"
anyhow = "1"
