[package]
name = "fast_merkle_tree"
version = "0.1.0"
edition = "2021"

[dependencies]
sha2 = "0.10"
bs58 = "0.5"
rayon = "1"
fast-math = "0.1"
