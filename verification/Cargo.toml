[package]
name = "rust_plot"
version = "0.1.0"
edition = "2021"
publish = false

[dependencies]
image = { version = "*", default-features = false }
nalgebra = "*"
num-traits = "*"
