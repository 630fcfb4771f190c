[package]
name = "circuit_opt"
version = "0.1.0"
edition = "2021"
publish = false

[dependencies]
ruint = "1"
ark-bn254 = "0.4"
ark-ff = "0.4"
ark-serialize = "0.4"
rand = "0.8"
serde = { version = "1", features = ["derive"] }
