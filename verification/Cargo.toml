[package]
name = "sbyte"
version = "0.1.0"
edition = "2021"
publish = false

[dependencies]
regex = "1"
wrecked = "*"
ctrlc = "*"
