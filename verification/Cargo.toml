[package]
name = "dserve"
version = "0.1.0"
edition = "2021"
publish = false

[dependencies]
ring = "*"
flate2 = "*"
serde = { version = "*", features = ["derive"] }
bincode = "1"
