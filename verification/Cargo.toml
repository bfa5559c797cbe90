[package]
name = "talos"
version = "0.1.0"
edition = "2021"
publish = false

[dependencies]
clap = "2"
num_cpus = "1"
rand = "0.9"
