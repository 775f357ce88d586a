[package]
name = "rust_monty_parallel"
version = "0.1.0"
edition = "2021"
publish = false

[dependencies]
rayon = "1"
num-traits = "0.2"

[dev-dependencies]
num-bigint = "0.4"
