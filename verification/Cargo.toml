[package]
name = "armamagna"
version = "0.1.0"
edition = "2021"
publish = false

[dependencies]
unicode-normalization = "*"
num_cpus = "*"
rayon = "*"
crossbeam-channel = "*"
clap = { version = "*", features = ["derive"] }
