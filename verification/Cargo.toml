[package]
name = "mandy"
version = "0.1.0"
edition = "2021"
publish = false

[dependencies]
clap = { version = "4", features = ["derive"] }
image = { version = "0.24", default-features = false, features = ["png"] }
indicatif = "0.17"
ndarray = "0.15"
palette = "0.6"
