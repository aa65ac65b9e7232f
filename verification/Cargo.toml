[package]
name = "tlbits"
version = "0.1.0"
edition = "2021"
publish = false

[dependencies]
bitvec = "1"
sha2 = "0.10"
chrono = { version = "0.4", default-features = false }
num-bigint = "0.4"
nacl = "*"
lazy_static = "1"
base64 = "*"
