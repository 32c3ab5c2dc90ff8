[package]
name = "stringstore"
version = "0.3.9"
edition = "2021"
publish = false

[dependencies]
crossbeam = "0.8"
dashmap = "6.1"
parking_lot = "0.12"
regex = "1"
size-of = "0.1.5"
xxhash-rust = { version = "0.8", features = ["xxh3"] }
