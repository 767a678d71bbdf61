[package]
name = "fhe_regression"
version = "0.1.0"
edition = "2021"
publish = false

[dependencies]
bincode = "=1.3.3"
clap = { version = "=3.2.25", features = ["derive"] }
