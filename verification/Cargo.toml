[package]
name = "diskus"
version = "0.1.0"
edition = "2021"
publish = false

[dependencies]
clap = "*"
colored = "*"
crossbeam-channel = "*"
humansize = "*"
num_cpus = "*"
rayon = "*"
