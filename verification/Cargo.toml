[package]
name = "navigation"
version = "0.1.0"
edition = "2021"
publish = false

[dependencies]
min-max-heap = "*"
clap = "2"
nalgebra = "*"
serde = { version = "1", features = ["derive"] }
serde_json = "1"
thiserror = "1"
