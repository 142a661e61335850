[package]
name = "formula_finder"
version = "0.1.0"
edition = "2021"
publish = false

[dependencies]
rand = "0.9"
num = "0.4"
rayon = "1"
regex = "1"
lazy_static = "1"
