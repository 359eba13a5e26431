[package]
name = "rmerger"
version = "0.1.0"
edition = "2021"
publish = false

[dependencies]
getopts = "*"
log = "*"
nix = { version = "*", features = ["mman", "fs"] }
