[package]
name = "tcov"
version = "0.1.0"
edition = "2021"
publish = false

[dependencies]
anyhow = "1"
clap = { version = "4", features = ["derive"] }
ratatui = "0.28"
rust-htslib = { version = "*", default-features = false }
