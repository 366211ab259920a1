[package]
name = "volesti-rs"
version = "0.1.0"
edition = "2021"
publish = false

[dependencies]
nalgebra = "0.33.0"
rand = "0.8.5"
thiserror = "1.0"
