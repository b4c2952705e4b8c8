[package]
name = "syncenv"
version = "0.1.0"
edition = "2021"
publish = false

[dependencies]
anyhow = "*"
argh = "*"
dirs = "*"
nix = "=0.26.4"
notify = "*"
