[package]
name = "nn_patches"
version = "0.1.0"
edition = "2021"
publish = false

[dependencies]
ndarray = "0.12"
itertools = "0.8"
