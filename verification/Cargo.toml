[package]
name = "h3o"
version = "0.1.0"
edition = "2021"
publish = false

[dependencies]
h3o-bit = "*"
serde = { version = "1", features = ["derive"] }
serde_repr = "*"
