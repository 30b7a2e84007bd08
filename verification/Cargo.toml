[package]
name = "sel"
version = "0.2.0"
edition = "2021"
publish = false

[dependencies]
regex = "1"
clap = { version = "4", features = ["derive"] }
thiserror = "2"
