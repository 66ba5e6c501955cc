[package]
name = "spektr"
version = "0.1.0"
edition = "2021"
publish = false

[dependencies]
anyhow = "1"
clap = { version = "4", features = ["derive"] }
crossterm = "0.28"
jwalk = "0.8"
num_cpus = "1"
ratatui = "0.29"
rayon = "1"
