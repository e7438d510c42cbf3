[package]
name = "sukker"
version = "0.1.0"
edition = "2021"
publish = false

[dependencies]
anyhow = "1"
itertools = "0.12"
num-traits = "0.2"
rand = "0.8"
rayon = "1"
serde = { version = "1", features = ["derive"] }
