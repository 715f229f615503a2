[package]
name = "h5stream"
version = "0.1.0"
edition = "2021"
publish = false

[dependencies]
smallvec = "1"
anyhow = "1"
