[package]
name = "wcore"
version = "0.1.0"
edition = "2021"
publish = false

[dependencies]
bit_field = "0.10"
