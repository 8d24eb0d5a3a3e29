[package]
name = "fivee_core"
version = "0.1.0"
edition = "2021"
publish = false

[dependencies]
array2d = "*"
serde = { version = "1", features = ["derive"] }
toml = "*"
