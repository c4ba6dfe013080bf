[package]
name = "pixls_colordata"
version = "0.1.0"
edition = "2021"
publish = false

[dependencies]
csv = "1"
libraw-rs = "0.0.4"
libraw-rs-sys = "0.0.4"
