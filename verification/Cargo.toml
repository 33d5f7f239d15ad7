[package]
name = "cplfs"
version = "0.1.0"
edition = "2021"
publish = false

[dependencies]
bitintr = "0.3"
thiserror = "1"

[dev-dependencies]
regex = "1"
bincode = "1"
