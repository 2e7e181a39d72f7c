[package]
name = "procon"
version = "0.1.0"
edition = "2021"

[dependencies]
ac-library-rs = "*"
proconio = { version = "*", features = ["derive"] }
