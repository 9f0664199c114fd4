[package]
name = "bao"
version = "0.1.0"
edition = "2021"
publish = false

[dependencies]
arrayvec = "0.5"
blake2s_simd = "0.5"
constant_time_eq = "0.1"

[dev-dependencies]
rand = "0.7"
rand_chacha = "0.2"
