[package]
name = "qsc_rir_verified"
version = "0.1.0"
edition = "2021"
publish = false

[dependencies]
rustc-hash = "=1.1.0"
indenter = "=0.3.4"
