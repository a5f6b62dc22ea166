[package]
name = "kvs"
version = "0.1.0"
edition = "2021"
publish = false

[dependencies]
bincode = "1"
clap = { version = "3", features = ["derive"] }
crossbeam = "0.8"
crossbeam-channel = "0.5"
crossbeam-skiplist = "0.1"
rayon = "1"
serde = { version = "1", features = ["derive"] }
sled = "0.34"
