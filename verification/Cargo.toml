[package]
name = "terra"
version = "0.1.0"
edition = "2021"
publish = false

[dependencies]
cgmath = "=0.18.0"
coord_transforms = "=1.4.1"
nalgebra = "=0.34.2"
