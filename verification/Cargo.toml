[package]
name = "ppann"
version = "0.1.0"
edition = "2021"
publish = false

[dependencies]
byteorder = "1"
rand = { version = "0.8", features = ["small_rng"] }
rayon = "1"
xxhash-rust = { version = "0.8", features = ["xxh3"] }
