[package]
name = "psk_modulation"
version = "0.1.0"
edition = "2021"
publish = false

[dependencies]
num = "0.4"
rayon = "1"
yttria-math = "*"
pyo3 = "*"
