[package]
name = "linktree"
version = "0.1.0"
edition = "2021"
publish = false

[dependencies]
globset = "*"
clap = { version = "*", features = ["derive"] }
walkdir = "*"
anstream = "*"
owo-colors = "*"
