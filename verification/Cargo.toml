[package]
name = "solomonoff"
version = "0.1.0"
edition = "2021"
publish = false

[dependencies]
nonmax = "*"
clap = { version = "*", features = ["derive"] }
rustyline = "*"
