[package]
name = "lopdf"
version = "0.38.0"
edition = "2021"
publish = false

[dependencies]
md-5 = "=0.10.6"
flate2 = "=1.1.10"
weezl = "=0.1.12"
rand = "=0.9.5"
encoding_rs = "=0.8.44"
rangemap = "=1.8.0"
brotli-decompressor = "*"
