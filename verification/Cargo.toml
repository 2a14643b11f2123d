[package]
name = "rdst"
version = "0.1.0"
edition = "2021"
publish = false

[dependencies]
arbitrary-chunks = "*"
nanorand = "*"
num_cpus = "*"
rayon = "*"
