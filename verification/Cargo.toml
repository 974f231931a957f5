[package]
name = "ffzf"
version = "0.2.6"
edition = "2021"
publish = false

[dependencies]
rayon = "1"
ordered-float = "*"
pyo3 = "0.16"
