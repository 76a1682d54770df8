[package]
name = "hashtree"
version = "0.1.0"
edition = "2021"
publish = false

[dependencies]
blake2b_simd = "1"
constant_time_eq = "0.3"

[dev-dependencies]
rand = "0.4"
