[package]
name = "fixed_size_binary"
version = "0.1.0"
edition = "2021"
publish = false

[dependencies]
polars-arrow = "*"
polars-core = "*"
polars-error = "*"
