[package]
name = "backtesting"
version = "0.1.0"
edition = "2021"
publish = false

[dependencies]
chrono = "0.4"
rand = "*"
rayon = "1"
thiserror = "2"
