[package]
name = "bitvec_simd"
version = "0.1.0"
edition = "2021"
publish = false

[dependencies]
wide = "0.7"
serde = { version = "1", features = ["derive"] }
