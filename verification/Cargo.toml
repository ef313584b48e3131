[package]
name = "minirt"
version = "0.1.0"
edition = "2021"
publish = false

[dependencies]
rp2040-pac = "0.3"
cortex-m = "0.7"
