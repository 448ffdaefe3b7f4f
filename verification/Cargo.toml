[package]
name = "rsmt2d_rs"
version = "0.1.0"
edition = "2021"
publish = false

[dependencies]
reed-solomon-erasure = "*"
eyre = "*"
