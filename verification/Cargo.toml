[package]
name = "dag_gen"
version = "0.1.0"
edition = "2021"
publish = false

[dependencies]
rand = "0.8"
rand_chacha = "0.3"
daggy = "0.8"
petgraph = "0.6"
clap = { version = "3.2", features = ["derive"] }
