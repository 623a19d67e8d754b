[package]
name = "stellardb"
version = "0.3.0"
edition = "2021"
publish = false

[dependencies]
decimal-bytes = "=0.4.3"
xxhash-rust = { version = "=0.8.19", features = ["xxh3"] }
parking_lot = "=0.13.0"
chrono = { version = "=0.4.45", default-features = false, features = ["alloc"] }
regex = "=1.13.1"
bimap = "0.6"
