[package]
name = "move_to_miden"
version = "0.1.0"
edition = "2021"
publish = false

[dependencies]
anyhow = "*"
miden-assembly = "=0.19.1"
