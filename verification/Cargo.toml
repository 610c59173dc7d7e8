[package]
name = "multilinear"
version = "0.1.0"
edition = "2021"
publish = false

[dependencies]
ark-ff = "0.5"
ark-poly = "0.5"
rayon = "1.10"
