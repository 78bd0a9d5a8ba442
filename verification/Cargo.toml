[package]
name = "puzzle_kit"
version = "0.1.0"
edition = "2021"
publish = false

[dependencies]
anyhow = "*"
clap = { version = "*", features = ["derive"] }
itertools = "*"
num = "*"
rand = "*"
rand_distr = "*"
regex = "*"
