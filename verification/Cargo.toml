[package]
name = "rust_kernel"
version = "0.1.0"
edition = "2021"
publish = false

[dependencies]
bootloader = "0.9"
spin = "*"
x86_64 = { version = "*", default-features = false, features = ["instructions"] }
