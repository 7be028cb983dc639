[package]
name = "ic3"
version = "0.1.0"
edition = "2021"
publish = false

[dependencies]
giputils = "=0.3.6"
nalgebra = "=0.33.3"
rand = "=0.9.5"
