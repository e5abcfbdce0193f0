[package]
name = "split_reads"
version = "0.1.0"
edition = "2021"
publish = false

[dependencies]
anyhow = "*"
clap = { version = "*", features = ["derive"] }
env_logger = "*"
log = "*"
noodles-bgzf = "*"
num_cpus = "*"
rust-htslib = { version = "*", default-features = false }
url = "*"

[dev-dependencies]
rand = "*"
