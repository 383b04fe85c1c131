[package]
name = "desktidy"
version = "0.1.0"
edition = "2021"
publish = false

[dependencies]
anyhow = "1"
clap = { version = "4", features = ["derive"] }
comfy-table = "7"
md5 = "0.7"
regex = "1"
sha2 = "0.10"
