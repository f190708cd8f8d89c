[package]
name = "lwe"
version = "0.1.0"
edition = "2021"
publish = false

[dependencies]
rand = "*"
rand_distr = "*"
serde = { version = "1", features = ["derive"] }
subtle = "2"
zeroize = { version = "1", features = ["derive"] }
