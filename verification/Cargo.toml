[package]
name = "stark101"
version = "0.1.0"
edition = "2021"
publish = false

[dependencies]
ark-bn254 = "0.5"
ark-ff = "0.5"
ark-poly = "0.5"
sha2 = "0.10"
