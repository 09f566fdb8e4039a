[package]
name = "commands"
version = "0.1.0"
edition = "2021"
publish = false

[dependencies]
clap = { version = "=4.6.7", features = ["derive"] }
crossterm = "=0.29.0"
globset = "=0.4.20"
shlex = "=1.3.0"
users = "=0.11.0"
walkdir = "=2.5.0"
