[package]
name = "mcts_rust"
version = "0.1.0"
edition = "2021"
publish = false

[dependencies]
pyo3 = "*"
rayon = "*"
serde = { version = "*", features = ["derive"] }
serde_json = "*"
