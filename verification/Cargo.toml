[package]
name = "surface_probe"
version = "0.1.0"
edition = "2021"
publish = false

[dependencies]
fnv = "1.0"
chemfiles = "0.10"
