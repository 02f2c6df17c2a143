[package]
name = "greybox"
version = "0.1.0"
edition = "2021"
publish = false

[dependencies]
md5 = "*"
rand = "*"
serde_json = "*"
clap = { version = "*", features = ["derive"] }
memmap2 = "*"
tempfile = "*"
log = "*"
env_logger = "*"
chrono = "*"
anyhow = "*"
thiserror = "*"
itertools = "*"
