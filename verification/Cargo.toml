[package]
name = "ssa_gen"
version = "0.1.0"
edition = "2021"
publish = false

[dependencies]
acvm = "=0.21.0"
serde = { version = "=1.0.229", features = ["derive"] }
