[package]
name = "scfmt"
version = "0.1.0"
edition = "2021"
publish = false

[dependencies]
colored = "2"
glob = "0.3"
version = "*"
