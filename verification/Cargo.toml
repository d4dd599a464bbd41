[package]
name = "alp"
version = "0.1.0"
edition = "2021"
publish = false

[dependencies]
ddo = "*"
clustering = "*"
clap = { version = "*", features = ["derive"] }
serde = { version = "*", features = ["derive"] }
serde_json = "*"
rand = "*"
rand_chacha = "*"
rand_distr = "*"
