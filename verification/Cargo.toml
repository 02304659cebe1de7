[package]
name = "rb_synthesis"
version = "0.1.0"
edition = "2021"
publish = false

[dependencies]
petgraph = "*"
rand_chacha = "*"
rayon = "*"
memory-stats = "*"
serde = { version = "1", features = ["derive"] }
serde_json = "1"
clap = { version = "4", features = ["derive"] }
miette = { version = "7", features = ["fancy"] }
thiserror = "*"
