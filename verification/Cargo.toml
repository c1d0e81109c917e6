[package]
name = "sae_support"
version = "0.1.0"
edition = "2021"
publish = false

[dependencies]
ndarray = "*"
rayon = "*"
log = "*"
opt = "*"
faer = "*"
