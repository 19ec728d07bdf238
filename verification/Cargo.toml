[package]
name = "hypercube"
version = "0.1.0"
edition = "2021"
publish = false

[dependencies]
rand = "*"
rgb2ansi256 = "*"
serde = { version = "*", features = ["derive"] }
serde_json = "*"
clap = { version = "*", features = ["derive"] }
crossterm = "*"
chrono = "*"
