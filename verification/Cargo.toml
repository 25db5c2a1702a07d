[package]
name = "rust_intonation"
version = "0.1.0"
edition = "2021"

[dependencies]
num = "0.4"
clap = { version = "4", features = ["derive"] }
rodio = { version = "0.17", default-features = false }
