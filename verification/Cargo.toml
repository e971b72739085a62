[package]
name = "qoala"
version = "0.1.0"
edition = "2021"
publish = false

[dependencies]
rayon = "1"
serde = { version = "1", features = ["derive"] }
serde_json = "1"
nalgebra = "*"
num-complex = "0.4"
