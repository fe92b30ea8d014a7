[package]
name = "devmpg"
version = "0.1.0"
edition = "2021"
publish = false

[dependencies]
evmil = "*"
clap = "*"
serde = { version = "*", features = ["derive"] }
serde_json = "*"
