[package]
name = "dupscan"
version = "0.1.0"
edition = "2021"
publish = false

[dependencies]
clap = { version = "4", features = ["derive"] }
sha1 = "0.10"
walkdir = "2"
