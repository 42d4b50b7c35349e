[package]
name = "simd_bmh"
version = "0.1.0"
edition = "2021"
publish = false

[dependencies]
quote = "1"
syn = "2"

[dev-dependencies]
rand = "0.9"
