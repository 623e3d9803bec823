[package]
name = "gridcast"
version = "0.1.0"
edition = "2021"
publish = false

[dependencies]
rand = "0.8"
specs = "*"
specs-derive = "*"
raylib = "*"
