[package]
name = "slipspace"
version = "0.1.0"
edition = "2021"
publish = false

[dependencies]
clap = { version = "4", features = ["derive"] }
crossbeam-channel = "0.5"
ctrlc = "3"
env_logger = "0.11"
fast_rsync = "0.2"
fuser = { version = "0.15", default-features = false }
hex = "0.4"
libc = "0.2"
lru = "0.12"
sha2 = "0.10"
ssh2 = "0.9"
