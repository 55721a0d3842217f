[package]
name = "elf2sgxs"
version = "0.1.0"
edition = "2021"
publish = false

[dependencies]
anyhow = "=1.0.104"
sgx-isa = "=0.6.0"
sgxs = { version = "=0.9.0", default-features = false }
xmas-elf = "=0.10.0"
