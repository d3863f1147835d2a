[package]
name = "hydro"
version = "0.1.0"
edition = "2021"
publish = false

[dependencies]
bit-set = "*"
rayon = "*"
parking_lot = "*"
