[package]
name = "snapconfig"
version = "0.1.0"
edition = "2021"
publish = false

[dependencies]
simd-json = "*"
serde_yaml = "*"
toml = "*"
rust-ini = "*"
memmap2 = "*"
tempfile = "*"
