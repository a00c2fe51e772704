[package]
name = "alg_playground"
version = "0.1.0"
edition = "2021"
publish = false

[dependencies]
rand = "0.9"
criterion = { version = "0.5", default-features = false }
