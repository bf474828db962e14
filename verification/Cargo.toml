[package]
name = "ts_runtime_typechecker"
version = "0.1.0"
edition = "2021"
publish = false

[dependencies]
rayon = "*"
