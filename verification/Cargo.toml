[package]
name = "less_is_more"
version = "0.1.0"
edition = "2021"
publish = false

[dependencies]
csv = "*"
flate2 = "*"
rayon = "*"
