[package]
name = "fleet-midi"
version = "0.1.0"
edition = "2021"
publish = false

[dependencies]
arrow = { version = "*", default-features = false }
parquet = { version = "*", default-features = false, features = ["arrow"] }
bytes = "*"
