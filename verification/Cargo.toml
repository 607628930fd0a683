[package]
name = "lizard"
version = "0.1.0"
edition = "2021"
publish = false

[dependencies]
anyhow = "1"
clap = { version = "4", features = ["derive"] }
lz4_flex = { version = "0.11", default-features = false, features = ["std", "safe-decode", "safe-encode"] }
