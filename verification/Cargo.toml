[package]
name = "bdsh"
version = "0.1.0"
edition = "2021"
publish = false

[dependencies]
indexmap = "*"
clap = { version = "*", features = ["derive"] }
crossterm = "*"
notify = "*"
ratatui = "*"
names = "*"
