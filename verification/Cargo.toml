[package]
name = "rutree2"
version = "0.1.0"
edition = "2021"
publish = false

[dependencies]
clap = { version = "*", features = ["derive"] }
colored = "*"
crossterm = "*"
ratatui = "*"
