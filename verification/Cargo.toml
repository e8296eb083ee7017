[package]
name = "quadtree"
version = "0.1.0"
edition = "2021"
publish = false

[dependencies]
serde = { version = "*", features = ["derive"] }
serde_yaml = "*"
dirs = "*"
clap = { version = "*", features = ["derive"] }
ndarray = "*"
ndarray-npy = "*"
