[package]
name = "flp-extract-fxp"
version = "0.1.0"
edition = "2021"
publish = false

[dependencies]
flate2 = "1"
md-5 = "0.10"
ruzstd = "*"
zstd = "0.13"
serde = { version = "1", features = ["derive"] }
serde_json = "1"
clap = { version = "4", features = ["derive"] }
