[package]
name = "ca_he_core"
version = "0.1.0"
edition = "2021"
publish = false

[dependencies]
rand = "0.8"
rayon = "1"
serde_json = "1"
sha3 = "0.10"
