[package]
name = "brk_core"
version = "0.1.0"
edition = "2021"
publish = false

[dependencies]
bitcoin = "0.32"
indexmap = "2"
rustc-hash = "2"
smallvec = "1"
parking_lot = "0.12"
crossbeam = "0.8"
tracing = "0.1"
rlimit = "0.10"
