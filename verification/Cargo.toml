[package]
name = "tyto"
version = "0.1.0"
edition = "2021"
publish = false

[dependencies]
petgraph = "0.6"
shellexpand = "3"
clap = { version = "4", features = ["derive"] }
colored = "2"
serde = { version = "1", features = ["derive"] }
serde_yaml = "0.9"
