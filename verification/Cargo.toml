[package]
name = "softmax_rows"
version = "0.1.0"
edition = "2021"
publish = false

[dependencies]
cuda-core = "=0.3.1"
cutile = "=0.3.1"
