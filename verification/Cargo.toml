[package]
name = "bridge_proof"
version = "0.1.0"
edition = "2021"
publish = false

[dependencies]
merkle = "1"
ring = "0.16"
parity-scale-codec = "*"
parity-scale-codec-derive = "*"
