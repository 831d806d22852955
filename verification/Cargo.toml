[package]
name = "tsptools"
version = "0.1.0"
edition = "2021"
publish = false

[dependencies]
rand = "0.8"
rand_chacha = "0.3"
rustc-hash = "1.1"
chrono = "0.4"
plotters = "0.3"
getopt = "1"
