[package]
name = "disjoint_set"
version = "0.1.0"
edition = "2021"
publish = false

[dependencies]
anyhow = "1"
image = "0.24"
imageproc = "0.23"
rand = "0.8"
rusttype = "0.9"
