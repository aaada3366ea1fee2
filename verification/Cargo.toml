[package]
name = "vanilla_aruco"
version = "0.1.0"
edition = "2021"
publish = false

[dependencies]
ciborium = "0.2"
serde = { version = "1", features = ["derive"] }
