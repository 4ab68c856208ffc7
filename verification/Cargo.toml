[package]
name = "pycycle"
version = "0.1.0"
edition = "2021"
publish = false

[dependencies]
clap = { version = "4", features = ["derive"] }
comfy-table = "7"
petgraph = "0.6"
regex = "1"
walkdir = "2"
