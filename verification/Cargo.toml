[package]
name = "heightmap"
version = "0.1.0"
edition = "2021"
publish = false

[dependencies]
brdb = "*"
log = "*"
rayon = "*"
