[package]
name = "topfew"
version = "0.1.0"
edition = "2021"
publish = false

[dependencies]
anyhow = "*"
clap = { version = "*", features = ["derive"] }
memmap = "*"
num_cpus = "*"
rayon = "*"
regex = "*"
