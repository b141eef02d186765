[package]
name = "laplace"
version = "0.1.0"
edition = "2021"
publish = false

[dependencies]
color-eyre = "=0.6.5"

[dev-dependencies]
nom = "7"
rand = "0.8"
