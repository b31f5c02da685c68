[package]
name = "cx_compiler"
version = "0.1.0"
edition = "2021"
publish = false

[dependencies]
anyhow = "1"
lasso = "0.7"
nom = "7"
rand = "0.8"
