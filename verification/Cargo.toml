[package]
name = "chain_demo"
version = "0.1.0"
edition = "2021"
publish = false

[dependencies]
ring = "*"
rand = "*"
howlong = "*"
serde = { version = "*", features = ["derive"] }
serde_json = "*"
