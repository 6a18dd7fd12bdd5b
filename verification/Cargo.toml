[package]
name = "chromachord"
version = "0.1.0"
edition = "2021"
publish = false

[dependencies]
hapsi = "*"
num-complex = "*"
once_cell = "*"
