[package]
name = "rust_dicegen"
version = "0.1.0"
edition = "2021"
publish = false

[dependencies]
rand = "0.7"

[dev-dependencies]
nom = { version = "5", default-features = false, features = ["std"] }
