[package]
name = "binary_analysis"
version = "0.1.0"
edition = "2021"
publish = false

[dependencies]
clap = { version = "4", features = ["derive"] }
clap-num = "1"
itertools = "*"
rayon = "1"
rustc-hash = "*"
