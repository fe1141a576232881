[package]
name = "gradcheck"
version = "0.1.0"
edition = "2021"
publish = false

[dependencies]
regex = "1"
csv = "1"
clap = "4"
yaml-rust = "0.4"
