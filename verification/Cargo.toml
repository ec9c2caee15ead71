[package]
name = "gkr"
version = "0.1.0"
edition = "2021"
publish = false

[dependencies]
sha3 = "0.10"
rand = "0.8"
ark-bls12-381 = "0.4"
ark-ec = "0.4"
ark-ff = "0.4"
