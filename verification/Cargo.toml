[package]
name = "mula"
version = "0.1.0"
edition = "2021"
publish = false

[dependencies]
spmc = "*"
parking_lot = "*"
