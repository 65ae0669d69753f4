[package]
name = "cac"
version = "0.1.0"
edition = "2021"
publish = false

[dependencies]
anyhow = "1"
clap = { version = "4", features = ["derive"] }
crossterm = "0.28"
dirs = "6"
fuzzy-matcher = "0.3"
git2 = { version = "0.20", default-features = false }
ratatui = "0.29"
