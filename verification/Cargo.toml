[package]
name = "snap"
version = "0.1.0"
edition = "2021"
publish = false

[dev-dependencies]
quickcheck = { version = "0.9", default-features = false }
rand = "0.7"
