[package]
name = "predsched"
version = "0.1.0"
edition = "2021"
publish = false

[dependencies]
num-integer = "0.1"
num-traits = "0.2"
rand = "0.8"
rand_distr = "0.4"
serde = { version = "1", features = ["derive"] }
csv = "1"
anyhow = "1"
structopt = { version = "0.3", features = ["paw"] }
paw = "1"
indicatif = { version = "0.17", features = ["rayon"] }
rayon = "1"
itertools-num = "0.1"
