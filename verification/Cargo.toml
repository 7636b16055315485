[package]
name = "pairing"
version = "0.1.0"
edition = "2021"
publish = false

[dependencies]
rand = "*"
rand_distr = "*"
serde = { version = "*", features = ["derive"] }
serde_json = "*"
indexmap = "*"
indicatif = "*"
itertools = "*"
clap = { version = "*", features = ["derive"] }
threadpool = "*"
num_cpus = "*"
