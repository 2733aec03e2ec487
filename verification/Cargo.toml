[package]
name = "arse_parser"
version = "0.1.0"
edition = "2021"

[dependencies]
flate2 = "1"

[dev-dependencies]
nom = "7"
