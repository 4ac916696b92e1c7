[package]
name = "young_tableau_rs"
version = "0.1.0"
edition = "2021"
publish = false

[dependencies]
num-rational = "=0.4.2"
num-traits = "=0.2.19"
rayon = "=1.12.0"
