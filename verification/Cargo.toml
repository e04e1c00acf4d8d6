[package]
name = "qbench_check"
version = "0.1.0"
edition = "2021"
publish = false

[dependencies]
rayon = "1"
flate2 = "1"
clap = { version = "4", features = ["derive"] }
rand = "0.8"
