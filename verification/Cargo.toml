[package]
name = "fable"
version = "0.1.0"
edition = "2021"
publish = false

[dev-dependencies]
nom = { version = "5.1", default-features = false, features = ["std"] }
