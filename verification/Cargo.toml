[package]
name = "alpha_mask"
version = "0.1.0"
edition = "2021"
publish = false

[dependencies]
crc = "=3.4.0"
