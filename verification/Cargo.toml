[package]
name = "mamu_core"
version = "0.1.0"
edition = "2021"
publish = false

[dependencies]
anyhow = "=1.0.104"
bplustree = "=0.1.0"
itertools = "=0.15.0"
jni = "=0.21.1"
log = "=0.4.34"
memmap2 = "=0.9.12"
nix = { version = "=0.31.3", features = ["mman"] }
obfstr = "=0.4.6"
rayon = "=1.12.0"
