[package]
name = "ue3_config_parser"
version = "0.1.0"
edition = "2021"
publish = false

[dependencies]
line-col = { version = "*", features = ["grapheme-clusters"] }
walkdir = "*"
