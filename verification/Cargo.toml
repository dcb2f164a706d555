[package]
name = "pack"
version = "0.1.0"
edition = "2021"
publish = false

[dependencies]
yaml-rust = "0.4"
num_cpus = "1"
docopt = "1"
serde = { version = "1", features = ["derive"] }
