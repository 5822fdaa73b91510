[package]
name = "pngstreamdec"
version = "0.1.0"
edition = "2021"
publish = false

[dependencies]
flate2 = "1"
clap = { version = "4", features = ["derive"] }
anstream = "*"
owo-colors = "4"
chrono = "0.4"
