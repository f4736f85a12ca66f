[package]
name = "lzw_decode"
version = "0.1.0"
edition = "2021"
publish = false

[dependencies]
clap = "2"
log = "0.4"
simple_logger = { version = "*", default-features = false }
