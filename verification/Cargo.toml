[package]
name = "protogalaxy"
version = "0.1.0"
edition = "2021"
publish = false

[dependencies]
ff = "0.13"
midnight-curves = "*"
rand_core = "0.6"
rayon = "1"
