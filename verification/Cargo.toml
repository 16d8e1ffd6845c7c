[package]
name = "pot2dict"
version = "0.1.0"
edition = "2021"
publish = false

[dependencies]
anyhow = "1"
bumpalo = "3"
clap = { version = "4", features = ["derive"] }
crossbeam-channel = "0.5"
dashmap = { version = "6", features = ["rayon"] }
hashbrown = "0.14"
indicatif = "0.17"
memchr = "2"
memmap2 = "0.9"
mimalloc = "0.1"
parking_lot = "0.12"
rayon = "1"
rustc-hash = "2"
smallvec = "1"
sysinfo = "0.31"
tempfile = "3"
