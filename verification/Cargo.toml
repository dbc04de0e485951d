[package]
name = "bao_hash"
version = "0.1.0"
edition = "2021"
publish = false

[dependencies]
arrayvec = "*"
blake2b_simd = "*"
crossbeam-channel = "*"
num_cpus = "*"
rayon = "*"
