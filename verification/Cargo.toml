[package]
name = "connectome-model"
version = "0.1.0"
edition = "2021"
publish = false

[dependencies]
bimap = "*"
nalgebra = { version = "*", default-features = false, features = ["std"] }
petgraph = "*"
rand = "*"
rand_distr = "*"
csv = "*"
indicatif = { version = "*", features = ["rayon"] }
rayon = "*"
