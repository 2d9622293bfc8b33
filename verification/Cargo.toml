[package]
name = "invariant_sets"
version = "0.1.0"
edition = "2021"
publish = false

[dependencies]
rand = "*"
num-complex = "*"
plotters = "*"
