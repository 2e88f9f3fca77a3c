[package]
name = "flat_bril"
version = "0.1.0"
edition = "2021"
publish = false

[dependencies]
clap = "*"
memmap2 = "*"
serde_json = "*"
