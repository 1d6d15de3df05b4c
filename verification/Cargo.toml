[package]
name = "plookup"
version = "0.1.0"
edition = "2021"
publish = false

[dependencies]
bls-12-381 = "=0.0.23"
merlin = "=3.0.0"
poly-commit = "=0.0.13"
zkstd = "=0.0.22"
