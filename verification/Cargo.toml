[package]
name = "cargo-skeleton"
version = "0.1.0"
edition = "2021"
publish = false

[dependencies]
anyhow = "1"
camino = "1"
cargo_metadata = "*"
clap = { version = "4", features = ["derive"] }
clap-cargo = { version = "*", features = ["cargo_metadata"] }
clap_mangen = "*"
env_logger = "*"
itertools = "*"
log = "0.4"
tar = "0.4"
