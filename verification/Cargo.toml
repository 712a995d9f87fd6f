[package]
name = "pykrete-wb"
version = "0.1.0"
edition = "2021"
publish = false

[dependencies]
rand = "0.9"
num-integer = "0.1"
anyhow = "1"
clap = { version = "4", features = ["derive"] }
