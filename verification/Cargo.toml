[package]
name = "ved"
version = "0.1.0"
edition = "2021"
publish = false

[dependencies]
rand = "*"
glob = "*"
clap = { version = "*", features = ["derive"] }
