[package]
name = "raa_tt"
version = "0.1.0"
edition = "2021"
publish = false

[dependencies]
petgraph = "0.6"
anyhow = "1"
clap = { version = "4", features = ["derive"] }
env_logger = "0.11"
thiserror = "1"
