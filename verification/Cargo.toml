[package]
name = "tda"
version = "0.1.0"
edition = "2021"
publish = false

[dependencies]
csv = "1"
dot = "0.1"
rand = "0.8"
