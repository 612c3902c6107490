[package]
name = "imagequant"
version = "4.0.0"
edition = "2021"
publish = false

[dependencies]
rgb = "0.8"
noisy_float = "0.2"
