[package]
name = "orcs"
version = "0.1.0"
edition = "2021"
publish = false

[dependencies]
crossbeam-channel = "*"
git2 = "*"
serde = { version = "*", features = ["derive"] }
toml = "*"
