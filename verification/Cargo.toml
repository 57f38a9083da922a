[package]
name = "confpiler"
version = "0.1.0"
edition = "2021"
publish = false

[dependencies]
anyhow = "1"
clap = { version = "3", features = ["derive"] }
config = "0.13"
serde_json = "1"
snailquote = "0.3"
