[package]
name = "aoc2024"
version = "0.1.0"
edition = "2021"
publish = false

[dependencies]
clap = { version = "=4.6.7", features = ["derive"] }

[dev-dependencies]
nom = "7.1.3"
