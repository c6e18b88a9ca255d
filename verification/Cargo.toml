[package]
name = "rota"
version = "0.1.0"
edition = "2021"
publish = false

[dependencies]
chrono = { version = "0.4", features = ["serde"] }
clap = "2"
itertools = "0.10"
serde = { version = "1", features = ["derive"] }
serde_yaml = "0.8"
term = "0.7"
