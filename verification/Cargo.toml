[package]
name = "svarog-p4k"
version = "0.1.0"
edition = "2021"
publish = false

[dependencies]
aes = "0.8"
cbc = "0.1"
flate2 = "1"
memchr = "2"
memmap2 = "0.9"
rayon = "1"
sha2 = "0.10"
thiserror = "2"
zstd = "0.13"
